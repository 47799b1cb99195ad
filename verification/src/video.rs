//! A numbered sequence of frames, each an image of a canvas.

use vstd::prelude::*;
use crate::plot::Plot;
use crate::text::{decimal, padded, push_decimal};

verus! {

/// The file name of frame number `n`: the number in at least four decimal
/// digits between `frame_` and `.png`.
pub open spec fn frame_name(n: nat) -> Seq<char> {
    seq!['f', 'r', 'a', 'm', 'e', '_'] + padded(decimal(n), 4, '0') + seq!['.', 'p', 'n', 'g']
}

/// A frame that waits to be written: the name of its file and its image
/// data.
pub struct Frame {
    pub file_name: String,
    pub pixel_data: Vec<u8>,
}

/// A film in the making: how many frames it has and at which scale they
/// are drawn.
pub struct Video {
    frame_count: usize,
    scale: usize,
}

impl Video {
    /// Number of frames added so far.
    pub closed spec fn frames(&self) -> nat {
        self.frame_count as nat
    }

    /// Side of the square that shows one pixel of a canvas.
    pub closed spec fn zoom(&self) -> nat {
        self.scale as nat
    }

    /// Makes the next frame from `plot`: its file is named after the number
    /// of frames before it and its data is the canvas at the film's scale.
    pub fn add_frame(&mut self, plot: &Plot) -> (frame: Frame)
        requires
            plot@.wf(),
            old(self).frames() < usize::MAX,
        ensures
            frame.file_name@ == frame_name(old(self).frames()),
            frame.pixel_data@ == plot@.bytes(old(self).zoom()),
            final(self).frames() == old(self).frames() + 1,
            final(self).zoom() == old(self).zoom(),
    {
        let mut file_name = String::new();
        file_name.push('f');
        file_name.push('r');
        file_name.push('a');
        file_name.push('m');
        file_name.push('e');
        file_name.push('_');
        assert(file_name@ =~= seq!['f', 'r', 'a', 'm', 'e', '_']);
        push_decimal(&mut file_name, self.frame_count, 4);
        let ghost numbered = file_name@;
        file_name.push('.');
        file_name.push('p');
        file_name.push('n');
        file_name.push('g');
        assert(file_name@ =~= numbered + seq!['.', 'p', 'n', 'g']);
        let pixel_data = plot.serialize(self.scale);
        self.frame_count += 1;
        Frame { file_name, pixel_data }
    }

    pub fn new(scale: usize) -> (v: Video)
        ensures
            v.frames() == 0,
            v.zoom() == scale,
    {
        Video { frame_count: 0, scale }
    }
}

} // verus!
