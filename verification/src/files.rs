//! A tree of directories and files, and the sizes of its directories.

use crate::text::{halves, plus_value, read_plus_u32, split_once, string_of};
use vstd::prelude::*;

verus! {

/// A node of the tree: a file with its name, its parent and its size, or
/// a directory with its name, its parent and its children.
pub enum INode {
    File(String, Option<usize>, u32),
    Directory(String, Option<usize>, Vec<usize>),
}

/// The tree: its nodes in the order in which they were added.
pub struct FileSystem {
    pub nodes: Vec<INode>,
}

/// Space on the disk.
pub const DISK: u32 = 70_000_000;

/// Free space that is needed.
pub const NEEDED: u32 = 30_000_000;

/// Largest size of a directory that counts as moderate.
pub const MODERATE: u32 = 100_000;

/// The children of a node; none for a file.
pub open spec fn children(node: INode) -> Seq<usize> {
    match node {
        INode::Directory(_, _, c) => c@,
        INode::File(_, _, _) => Seq::empty(),
    }
}

/// Every child of a node has been added after the node.
pub open spec fn is_tree(nodes: Seq<INode>) -> bool {
    forall|i: int, k: int|
        0 <= i < nodes.len() && 0 <= k < children(nodes[i]).len() ==> i < (#[trigger] children(
            nodes[i],
        )[k]) < nodes.len()
}

/// The size of a node: that of a file is its own, that of a directory the
/// sum of the sizes of its children.
pub open spec fn size_of(nodes: Seq<INode>, i: int) -> nat
    decreases nodes.len() - i, 1int,
{
    if 0 <= i < nodes.len() {
        match nodes[i] {
            INode::File(_, _, size) => size as nat,
            INode::Directory(_, _, c) => sizes_of(nodes, i, c@.len()),
        }
    } else {
        0
    }
}

/// The sum of the sizes of the first `k` children of directory `i`.
pub open spec fn sizes_of(nodes: Seq<INode>, i: int, k: nat) -> nat
    decreases nodes.len() - i, 0int, k,
{
    if k == 0 || !(0 <= i < nodes.len()) {
        0
    } else {
        let child = children(nodes[i])[k - 1] as int;
        sizes_of(nodes, i, (k - 1) as nat) + (if i < child < nodes.len() {
            size_of(nodes, child)
        } else {
            0
        })
    }
}

/// Whether the node is a directory.
pub open spec fn is_dir(node: INode) -> bool {
    node is Directory
}

/// The parent of a node.
pub open spec fn parent_of(node: INode) -> Option<usize> {
    match node {
        INode::Directory(_, p, _) => p,
        INode::File(_, p, _) => p,
    }
}

/// The nodes after a node has been added below `parent`: the new node at
/// the end, and its index at the end of the children of the parent, where
/// there is one and it is a directory.
pub open spec fn added(before: Seq<INode>, after: Seq<INode>, parent: Option<usize>) -> bool {
    &&& after.len() == before.len() + 1
    &&& forall|i: int|
        0 <= i < before.len() ==> is_dir(#[trigger] after[i]) == is_dir(before[i]) && parent_of(
            after[i],
        ) == parent_of(before[i]) && (before[i] matches INode::File(_, _, size) ==> after[i] matches INode::File(
            _,
            _,
            same,
        ) && same == size) && children(after[i]) == (if parent == Some(i as usize) && is_dir(
            before[i],
        ) {
            children(before[i]).push(before.len() as usize)
        } else {
            children(before[i])
        })
}

impl FileSystem {
    /// An empty tree.
    pub fn new() -> (fs: FileSystem)
        ensures
            fs.nodes@.len() == 0,
            is_tree(fs.nodes@),
    {
        FileSystem { nodes: Vec::new() }
    }

    fn link(&mut self, parent: Option<usize>, node: usize)
        requires
            is_tree(old(self).nodes@.drop_last()),
            old(self).nodes@.len() == node + 1,
            children(old(self).nodes@[node as int]).len() == 0,
            parent matches Some(p) ==> p < node,
        ensures
            is_tree(final(self).nodes@),
            added(old(self).nodes@.drop_last(), final(self).nodes@, parent),
            final(self).nodes@[node as int] == old(self).nodes@[node as int],
    {
        let ghost before = self.nodes@.drop_last();
        if let Some(p) = parent {
            if let INode::Directory(_, _, children) = &mut self.nodes[p] {
                children.push(node)
            }
        }
        proof {
            assert forall|i: int, k: int|
                0 <= i < self.nodes@.len() && 0 <= k < children(self.nodes@[i]).len() implies i < (
                #[trigger] children(self.nodes@[i])[k]) < self.nodes@.len() by {
                if i < node {
                    assert(before[i] == old(self).nodes@[i]);
                    if k < children(before[i]).len() {
                        assert(i < children(before[i])[k] < before.len());
                    }
                }
            }
            assert forall|i: int| 0 <= i < before.len() implies is_dir(#[trigger] self.nodes@[i])
                == is_dir(before[i]) && parent_of(self.nodes@[i]) == parent_of(before[i]) && (
            before[i] matches INode::File(_, _, size) ==> self.nodes@[i] matches INode::File(
                _,
                _,
                same,
            ) && same == size) && children(self.nodes@[i]) == (if parent == Some(i as usize) && is_dir(
                before[i],
            ) {
                children(before[i]).push(before.len() as usize)
            } else {
                children(before[i])
            }) by {
                assert(before[i] == old(self).nodes@[i]);
            }
        }
    }

    /// Adds a directory below `parent` and returns its index.
    pub fn add_directory(&mut self, name: &str, parent: Option<usize>) -> (node: usize)
        requires
            is_tree(old(self).nodes@),
            parent matches Some(p) ==> p < old(self).nodes@.len(),
        ensures
            is_tree(final(self).nodes@),
            node == old(self).nodes@.len(),
            added(old(self).nodes@, final(self).nodes@, parent),
            final(self).nodes@[node as int] matches INode::Directory(n, p, c) && n@ == name@ && p
                == parent && c@.len() == 0,
    {
        let node = self.nodes.len();
        self.nodes.push(INode::Directory(name.to_owned(), parent, Vec::new()));
        assert(self.nodes@.drop_last() =~= old(self).nodes@);
        self.link(parent, node);
        node
    }

    /// Adds a file of the given size below `parent` and returns its index.
    pub fn add_file(&mut self, name: &str, size: u32, parent: Option<usize>) -> (node: usize)
        requires
            is_tree(old(self).nodes@),
            parent matches Some(p) ==> p < old(self).nodes@.len(),
        ensures
            is_tree(final(self).nodes@),
            node == old(self).nodes@.len(),
            added(old(self).nodes@, final(self).nodes@, parent),
            final(self).nodes@[node as int] matches INode::File(n, p, s) && n@ == name@ && p == parent
                && s == size,
    {
        let node = self.nodes.len();
        self.nodes.push(INode::File(name.to_owned(), parent, size));
        assert(self.nodes@.drop_last() =~= old(self).nodes@);
        self.link(parent, node);
        node
    }
}

/// Every size that the cache holds is the size of its node.
pub open spec fn cache_holds(nodes: Seq<INode>, cached: Seq<Option<u32>>) -> bool {
    cached.len() == nodes.len() && forall|i: int|
        0 <= i < nodes.len() ==> ((#[trigger] cached[i]) matches Some(s) ==> s == size_of(nodes, i))
}

/// A node is no smaller than the sum of some of its children.
pub proof fn lemma_sizes_grow(nodes: Seq<INode>, i: int, k: nat, n: nat)
    requires
        k <= n,
    ensures
        sizes_of(nodes, i, k) <= sizes_of(nodes, i, n),
    decreases n - k,
{
    if k < n {
        lemma_sizes_grow(nodes, i, k, (n - 1) as nat);
    }
}

impl FileSystem {
    /// The size of a node, which is kept in the cache where the node is a
    /// directory. Returns `None` where a size does not fit in 32 bits.
    pub fn directory_size(&self, cached: &mut Vec<Option<u32>>, node: usize) -> (r: Option<u32>)
        requires
            is_tree(self.nodes@),
            node < self.nodes@.len(),
            cache_holds(self.nodes@, old(cached)@),
        ensures
            cache_holds(self.nodes@, final(cached)@),
            match r {
                Some(size) => size == size_of(self.nodes@, node as int),
                None => size_of(self.nodes@, node as int) > u32::MAX,
            },
            r is Some && is_dir(self.nodes@[node as int]) ==> final(cached)@[node as int] == r,
            forall|i: int|
                0 <= i < old(cached)@.len() && (#[trigger] old(cached)@[i]) is Some ==> final(cached)@[i]
                    == old(cached)@[i],
        decreases self.nodes@.len() - node,
    {
        match &self.nodes[node] {
            INode::File(_, _, size) => Some(*size),
            INode::Directory(_, _, children) => {
                if let Some(s) = cached[node] {
                    return Some(s);
                }
                let mut size: u32 = 0;
                let mut k: usize = 0;
                while k < children.len()
                    invariant
                        is_tree(self.nodes@),
                        node < self.nodes@.len(),
                        self.nodes@[node as int] matches INode::Directory(_, _, c) && c == children,
                        k <= children@.len(),
                        cache_holds(self.nodes@, cached@),
                        old(cached)@.len() == self.nodes@.len(),
                        size == sizes_of(self.nodes@, node as int, k as nat),
                        forall|i: int|
                            0 <= i < old(cached)@.len() && (#[trigger] old(cached)@[i]) is Some
                                ==> cached@[i] == old(cached)@[i],
                    decreases children@.len() - k,
                {
                    let c = children[k];
                    assert(node < crate::files::children(self.nodes@[node as int])[k as int]
                        < self.nodes@.len());
                    let ghost held = cached@;
                    let found = self.directory_size(cached, c);
                    proof {
                        assert forall|i: int|
                            0 <= i < old(cached)@.len() && (#[trigger] old(cached)@[i]) is Some implies cached@[i]
                            == old(cached)@[i] by {
                            assert(held[i] == old(cached)@[i]);
                            assert(held[i] is Some);
                        }
                    }
                    let part = match found {
                        Some(part) => part,
                        None => {
                            proof {
                                lemma_sizes_grow(
                                    self.nodes@,
                                    node as int,
                                    (k + 1) as nat,
                                    children@.len() as nat,
                                );
                            }
                            return None;
                        },
                    };
                    size = match size.checked_add(part) {
                        Some(sum) => sum,
                        None => {
                            proof {
                                lemma_sizes_grow(
                                    self.nodes@,
                                    node as int,
                                    (k + 1) as nat,
                                    children@.len() as nat,
                                );
                            }
                            return None;
                        },
                    };
                    k += 1;
                }
                cached[node] = Some(size);
                Some(size)
            },
        }
    }
}

/// The sum of the sizes of the directories among the first `n` nodes
/// that are moderate.
pub open spec fn moderate_sum(nodes: Seq<INode>, n: nat) -> nat
    decreases n,
{
    if n == 0 {
        0
    } else {
        moderate_sum(nodes, (n - 1) as nat) + (if is_dir(nodes[n - 1]) && size_of(nodes, n - 1)
            <= MODERATE {
            size_of(nodes, n - 1)
        } else {
            0
        })
    }
}

/// A sum over more nodes is no smaller.
pub proof fn lemma_moderate_grows(nodes: Seq<INode>, k: nat, n: nat)
    requires
        k <= n,
    ensures
        moderate_sum(nodes, k) <= moderate_sum(nodes, n),
    decreases n - k,
{
    if k < n {
        lemma_moderate_grows(nodes, k, (n - 1) as nat);
    }
}

/// Whether deleting the directory at `i` leaves enough space free, the
/// first node being the root of all that is on the disk.
pub open spec fn acceptable(nodes: Seq<INode>, i: int) -> bool {
    0 <= i < nodes.len() && is_dir(nodes[i]) && DISK - size_of(nodes, 0) + size_of(nodes, i) >= NEEDED
}

/// Whether the tree can be scanned: its first node is a directory that
/// fits on the disk, the sizes and their sum fit in 32 bits, and some
/// directory can be deleted to leave enough space.
pub open spec fn scannable(nodes: Seq<INode>) -> bool {
    &&& nodes.len() > 0
    &&& is_dir(nodes[0])
    &&& size_of(nodes, 0) <= DISK
    &&& forall|i: int| 0 <= i < nodes.len() && is_dir(#[trigger] nodes[i]) ==> size_of(nodes, i) <= u32::MAX
    &&& moderate_sum(nodes, nodes.len()) <= u32::MAX
    &&& exists|i: int| #[trigger] acceptable(nodes, i)
}

impl FileSystem {
    /// The sum of the sizes of the moderate directories, and the size of
    /// the smallest directory whose deletion leaves enough space free.
    /// Returns `None` where the tree cannot be scanned.
    pub fn scan_directories(&self) -> (r: Option<(u32, u32)>)
        requires
            is_tree(self.nodes@),
        ensures
            r is Some == scannable(self.nodes@),
            r matches Some((sum, smallest)) ==> sum == moderate_sum(self.nodes@, self.nodes@.len()) && (
            exists|i: int| #[trigger] acceptable(self.nodes@, i) && size_of(self.nodes@, i) == smallest)
                && forall|i: int| #[trigger] acceptable(self.nodes@, i) ==> smallest <= size_of(self.nodes@, i),
    {
        let mut sizes: Vec<Option<u32>> = Vec::new();
        while sizes.len() < self.nodes.len()
            invariant
                sizes@.len() <= self.nodes@.len(),
                forall|i: int| 0 <= i < sizes@.len() ==> sizes@[i] is None,
            decreases self.nodes@.len() - sizes@.len(),
        {
            sizes.push(None);
        }
        let mut sum_of_moderate: u32 = 0;
        let mut smallest_acceptable: Option<u32> = None;
        let ghost mut witness: int = 0;
        let mut n: usize = 0;
        while n < self.nodes.len()
            invariant
                is_tree(self.nodes@),
                n <= self.nodes@.len(),
                cache_holds(self.nodes@, sizes@),
                sum_of_moderate == moderate_sum(self.nodes@, n as nat),
                n > 0 ==> is_dir(self.nodes@[0]) && sizes@[0] == Some(size_of(self.nodes@, 0) as u32)
                    && size_of(self.nodes@, 0) <= DISK,
                forall|i: int|
                    0 <= i < n && is_dir(#[trigger] self.nodes@[i]) ==> size_of(self.nodes@, i)
                        <= u32::MAX,
                match smallest_acceptable {
                    Some(s) => 0 <= witness < n && acceptable(self.nodes@, witness) && size_of(
                        self.nodes@,
                        witness,
                    ) == s && forall|i: int|
                        0 <= i < n && #[trigger] acceptable(self.nodes@, i) ==> s <= size_of(
                            self.nodes@,
                            i,
                        ),
                    None => forall|i: int| 0 <= i < n ==> !#[trigger] acceptable(self.nodes@, i),
                },
            decreases self.nodes@.len() - n,
        {
            let dir = match &self.nodes[n] {
                INode::Directory(_, _, _) => true,
                INode::File(_, _, _) => false,
            };
            if n == 0 && !dir {
                return None;
            }
            if dir {
                let size = match self.directory_size(&mut sizes, n) {
                    Some(size) => size,
                    None => {
                        return None;
                    },
                };
                if size <= 100_000 {
                    sum_of_moderate = match sum_of_moderate.checked_add(size) {
                        Some(sum) => sum,
                        None => {
                            proof {
                                lemma_moderate_grows(
                                    self.nodes@,
                                    (n + 1) as nat,
                                    self.nodes@.len() as nat,
                                );
                            }
                            return None;
                        },
                    };
                }
                let total = match sizes[0] {
                    Some(total) => total,
                    None => {
                        return None;
                    },
                };
                if total > 70_000_000 {
                    return None;
                }
                let free_space = 70_000_000 - total;
                if free_space as u64 + size as u64 >= 30_000_000 {
                    if let Some(s) = smallest_acceptable {
                        if size < s {
                            smallest_acceptable = Some(size);
                            proof {
                                witness = n as int;
                            }
                        }
                    } else {
                        smallest_acceptable = Some(size);
                        proof {
                            witness = n as int;
                        }
                    }
                }
            }
            n += 1;
        }
        match smallest_acceptable {
            Some(s) => Some((sum_of_moderate, s)),
            None => None,
        }
    }
}

/// What a line of a terminal asks for: to go to the root, to go up, to
/// go down into a directory, nothing, or to note a file with its name
/// and size.
pub enum Command {
    Root,
    Up,
    Down,
    Skip,
    File(String, u32),
}

/// What a line of a terminal asks for, the name of a file as its
/// characters.
pub enum Order {
    Root,
    Up,
    Down,
    Skip,
    File(Seq<char>, u32),
}

/// The order that a command stands for.
pub open spec fn meant(c: Command) -> Order {
    match c {
        Command::Root => Order::Root,
        Command::Up => Order::Up,
        Command::Down => Order::Down,
        Command::Skip => Order::Skip,
        Command::File(name, size) => Order::File(name@, size),
    }
}

/// What a line asks for. A line that begins with `$ cd` changes the
/// directory to what follows its fifth character: `/` is the root and
/// `..` the way up. Any other line that begins with `$` or with `dir`,
/// and an empty line, ask for nothing. Any other line notes a file: its
/// size, a blank, and its name. None where `$ cd` stands alone or a file
/// has no size that fits in 32 bits.
pub open spec fn order_of(line: Seq<char>) -> Option<Order> {
    if line.len() >= 4 && line[0] == '$' && line[1] == ' ' && line[2] == 'c' && line[3] == 'd' {
        if line.len() < 5 {
            None
        } else if line.skip(5) == seq!['/'] {
            Some(Order::Root)
        } else if line.skip(5) == seq!['.', '.'] {
            Some(Order::Up)
        } else {
            Some(Order::Down)
        }
    } else if line.len() >= 1 && line[0] == '$' {
        Some(Order::Skip)
    } else if line.len() >= 3 && line[0] == 'd' && line[1] == 'i' && line[2] == 'r' {
        Some(Order::Skip)
    } else if line.len() > 0 {
        match halves(line, ' ') {
            Some(h) => match plus_value(h.0, u32::MAX as nat) {
                Some(n) => Some(Order::File(h.1, n as u32)),
                None => None,
            },
            None => None,
        }
    } else {
        Some(Order::Skip)
    }
}

/// Reads what a line asks for.
pub fn read_command(line: &Vec<char>) -> (r: Option<Command>)
    ensures
        match order_of(line@) {
            Some(o) => r matches Some(c) && meant(c) == o,
            None => r is None,
        },
{
    let n = line.len();
    if n >= 4 && line[0] == '$' && line[1] == ' ' && line[2] == 'c' && line[3] == 'd' {
        if n < 5 {
            return None;
        }
        let ghost dn = line@.skip(5);
        if n == 6 && line[5] == '/' {
            assert(dn =~= seq!['/']);
            return Some(Command::Root);
        }
        if n == 7 && line[5] == '.' && line[6] == '.' {
            assert(dn =~= seq!['.', '.']);
            return Some(Command::Up);
        }
        proof {
            if dn == seq!['/'] {
                assert(dn.len() == 1 && dn[0] == '/');
            }
            if dn == seq!['.', '.'] {
                assert(dn.len() == 2 && dn[0] == '.' && dn[1] == '.');
            }
        }
        return Some(Command::Down);
    }
    if n >= 1 && line[0] == '$' {
        return Some(Command::Skip);
    }
    if n >= 3 && line[0] == 'd' && line[1] == 'i' && line[2] == 'r' {
        return Some(Command::Skip);
    }
    if n == 0 {
        return Some(Command::Skip);
    }
    match split_once(line, ' ') {
        Some((size, name)) => match read_plus_u32(&size) {
            Some(s) => {
                let text = string_of(&name, 0, name.len());
                assert(name@.subrange(0, name@.len() as int) =~= name@);
                Some(Command::File(text, s))
            },
            None => None,
        },
        None => None,
    }
}

/// Whether an order can be followed where the directories gone into are
/// `stack`: to go down or to note a file takes a directory to be in.
pub open spec fn can_follow(stack: Seq<usize>, o: Order) -> bool {
    match o {
        Order::Down => stack.len() > 0,
        Order::File(_, _) => stack.len() > 0,
        _ => true,
    }
}

/// Whether following an order leads from one tree and the directories
/// gone into to another: the root is a new directory without a name and
/// is gone into; the way up leaves the last directory, if there is one;
/// the way down makes a directory named `dn` in the last directory and
/// goes into it; a file is added to the last directory.
pub open spec fn followed(
    before: (Seq<INode>, Seq<usize>),
    o: Order,
    after: (Seq<INode>, Seq<usize>),
) -> bool {
    match o {
        Order::Root => added(before.0, after.0, None) && (after.0.last() matches INode::Directory(
            n,
            p,
            c,
        ) && n@.len() == 0 && p is None && c@.len() == 0) && after.1 == before.1.push(
            before.0.len() as usize,
        ),
        Order::Up => after.0 == before.0 && after.1 == (if before.1.len() > 0 {
            before.1.drop_last()
        } else {
            before.1
        }),
        Order::Down => before.1.len() > 0 && added(before.0, after.0, Some(before.1.last())) && (
        after.0.last() matches INode::Directory(n, p, c) && n@ == seq!['d', 'n'] && p == Some(
            before.1.last(),
        ) && c@.len() == 0) && after.1 == before.1.push(before.0.len() as usize),
        Order::Skip => after == before,
        Order::File(name, size) => before.1.len() > 0 && added(
            before.0,
            after.0,
            Some(before.1.last()),
        ) && (after.0.last() matches INode::File(n, p, s) && n@ == name && p == Some(
            before.1.last(),
        ) && s == size) && after.1 == before.1,
    }
}

/// Whether the first `n` lines of a terminal lead from the empty tree to
/// a tree and the directories gone into.
pub open spec fn reached(lines: Seq<Vec<char>>, n: nat, now: (Seq<INode>, Seq<usize>)) -> bool
    decreases n,
{
    if n == 0 {
        now.0.len() == 0 && now.1.len() == 0
    } else {
        exists|prev: (Seq<INode>, Seq<usize>)|
            reached(lines, (n - 1) as nat, prev) && order_of(lines[n - 1]@) is Some
                && #[trigger] followed(prev, order_of(lines[n - 1]@).unwrap(), now)
    }
}

/// Whether the line after the first `n` lines of a terminal cannot be
/// followed, whatever tree they lead to.
pub open spec fn stuck_at(lines: Seq<Vec<char>>, n: nat) -> bool {
    order_of(lines[n as int]@) is None || exists|prev: (Seq<INode>, Seq<usize>)|
        #[trigger] reached(lines, n, prev) && !can_follow(prev.1, order_of(lines[n as int]@).unwrap())
}

/// Builds the tree that the lines of a terminal tell of. None where a
/// line cannot be followed.
pub fn read_terminal(lines: &Vec<Vec<char>>) -> (r: Option<FileSystem>)
    ensures
        match r {
            Some(fs) => is_tree(fs.nodes@) && exists|stack: Seq<usize>|
                #[trigger] reached(lines@, lines@.len(), (fs.nodes@, stack)),
            None => exists|n: nat| n < lines@.len() && #[trigger] stuck_at(lines@, n),
        },
{
    let mut fs = FileSystem::new();
    let mut nodes: Vec<usize> = Vec::new();
    let mut i: usize = 0;
    while i < lines.len()
        invariant
            i <= lines@.len(),
            is_tree(fs.nodes@),
            forall|k: int| 0 <= k < nodes@.len() ==> #[trigger] nodes@[k] < fs.nodes@.len(),
            reached(lines@, i as nat, (fs.nodes@, nodes@)),
        decreases lines@.len() - i,
    {
        let ghost prev = (fs.nodes@, nodes@);
        let command = match read_command(&lines[i]) {
            Some(c) => c,
            None => {
                assert(stuck_at(lines@, i as nat));
                return None;
            },
        };
        let ghost o = meant(command);
        match command {
            Command::Root => {
                let node = fs.add_directory("", None);
                proof {
                    reveal_strlit("");
                }
                nodes.push(node);
            },
            Command::Up => {
                nodes.pop();
            },
            Command::Down => {
                if nodes.len() == 0 {
                    assert(stuck_at(lines@, i as nat));
                    return None;
                }
                let last = nodes[nodes.len() - 1];
                let node = fs.add_directory("dn", Some(last));
                proof {
                    reveal_strlit("dn");
                    assert("dn"@ =~= seq!['d', 'n']);
                }
                nodes.push(node);
            },
            Command::Skip => {},
            Command::File(name, size) => {
                if nodes.len() == 0 {
                    assert(stuck_at(lines@, i as nat));
                    return None;
                }
                let last = nodes[nodes.len() - 1];
                fs.add_file(name.as_str(), size, Some(last));
            },
        }
        proof {
            assert(followed(prev, o, (fs.nodes@, nodes@)));
        }
        i += 1;
    }
    assert(reached(lines@, lines@.len(), (fs.nodes@, nodes@)));
    Some(fs)
}

} // verus!
