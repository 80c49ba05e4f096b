//! The adaptive (FGK) Huffman coder that compresses every message on the
//! wire. Its tree lives in a flat arena whose index `0` is the root; one
//! coder serves one message.
use vstd::prelude::*;

verus! {

/// The number of distinct symbols: every byte value.
pub const MAX_SYMBOLS: usize = 256;

/// The capacity of the arena.
pub const MAX_NODES: usize = 511;

/// The arena index of the root.
pub const ROOT: usize = 0;

/// The longest input that one call codes, in bytes: a decoded length travels
/// on the wire as a `u16`.
pub const MAX_CODED_BYTES: usize = 65535;

/// Why coding stopped.
#[derive(Clone, Copy, PartialEq, Eq, Structural, Debug)]
pub enum HuffmanError {
    /// The bit stream ran out before the requested number of bytes.
    Truncated,
    /// The arena has no room left, or does not hold the tree it should.
    ArenaOverflow,
}

/// A node of the coding tree; links are arena indices.
#[derive(Clone, Copy, PartialEq, Eq, Structural, Debug)]
pub enum Node {
    /// The one leaf that stands for a symbol not seen yet.
    NotYetTransmitted { parent: Option<usize> },
    /// The leaf of a symbol seen before.
    Leaf { parent: usize, weight: u64, symbol: u8 },
    /// An inner node; its weight is the sum of its children's.
    Internal { parent: Option<usize>, left: usize, right: usize, weight: u64 },
}

impl Node {
    pub open spec fn parent_of(self) -> Option<usize> {
        match self {
            Node::NotYetTransmitted { parent } => parent,
            Node::Leaf { parent, .. } => Some(parent),
            Node::Internal { parent, .. } => parent,
        }
    }

    pub open spec fn weight_of(self) -> u64 {
        match self {
            Node::NotYetTransmitted { .. } => 0,
            Node::Leaf { weight, .. } => weight,
            Node::Internal { weight, .. } => weight,
        }
    }

    pub open spec fn with_parent(self, p: usize) -> Node {
        match self {
            Node::NotYetTransmitted { .. } => Node::NotYetTransmitted { parent: Some(p) },
            Node::Leaf { weight, symbol, .. } => Node::Leaf { parent: p, weight, symbol },
            Node::Internal { left, right, weight, .. } => Node::Internal {
                parent: Some(p),
                left,
                right,
                weight,
            },
        }
    }

    /// The node with its weight one higher; `None` for the NYT leaf, which
    /// weighs nothing, and where the count would overflow.
    pub open spec fn bumped(self) -> Option<Node> {
        match self {
            Node::NotYetTransmitted { .. } => None,
            Node::Leaf { parent, weight, symbol } => if weight < u64::MAX {
                Some(Node::Leaf { parent, weight: (weight + 1) as u64, symbol })
            } else {
                None
            },
            Node::Internal { parent, left, right, weight } => if weight < u64::MAX {
                Some(Node::Internal { parent, left, right, weight: (weight + 1) as u64 })
            } else {
                None
            },
        }
    }

    fn parent(&self) -> (r: Option<usize>)
        ensures
            r == self.parent_of(),
    {
        match *self {
            Node::NotYetTransmitted { parent } => parent,
            Node::Leaf { parent, .. } => Some(parent),
            Node::Internal { parent, .. } => parent,
        }
    }

    fn set_parent(&mut self, index: usize)
        ensures
            *final(self) == old(self).with_parent(index),
    {
        match self {
            Node::NotYetTransmitted { parent } => *parent = Some(index),
            Node::Leaf { parent, .. } => *parent = index,
            Node::Internal { parent, .. } => *parent = Some(index),
        }
    }

    fn weight(&self) -> (r: u64)
        ensures
            r == self.weight_of(),
    {
        match *self {
            Node::NotYetTransmitted { .. } => 0,
            Node::Leaf { weight, .. } => weight,
            Node::Internal { weight, .. } => weight,
        }
    }

    /// Adds one to the weight; `false`, with the node unchanged, where
    /// [`Node::bumped`] has nothing.
    fn increase_weight(&mut self) -> (r: bool)
        ensures
            r == old(self).bumped() is Some,
            r ==> *final(self) == old(self).bumped().unwrap(),
            !r ==> *final(self) == *old(self),
    {
        match self {
            Node::NotYetTransmitted { .. } => false,
            Node::Leaf { weight, .. } => {
                if *weight < u64::MAX {
                    *weight = *weight + 1;
                    true
                } else {
                    false
                }
            },
            Node::Internal { weight, .. } => {
                if *weight < u64::MAX {
                    *weight = *weight + 1;
                    true
                } else {
                    false
                }
            },
        }
    }
}

/// The state of a coder: the arena, the leaf of each symbol seen, the NYT
/// leaf and the next free slot.
pub struct Tree {
    pub nodes: Seq<Option<Node>>,
    pub symbols: Seq<Option<usize>>,
    pub nyt: usize,
    pub next: usize,
}

/// The arena and the symbol table have their fixed sizes.
pub open spec fn shaped(t: Tree) -> bool {
    t.nodes.len() == MAX_NODES && t.symbols.len() == MAX_SYMBOLS
}

/// The node at arena index `i`, if the slot is populated.
pub open spec fn node_at(t: Tree, i: int) -> Option<Node> {
    if 0 <= i < t.nodes.len() {
        t.nodes[i]
    } else {
        None
    }
}

/// The coder as it starts: the NYT leaf alone, at the root.
pub open spec fn initial() -> Tree {
    Tree {
        nodes: Seq::new(MAX_NODES as nat, |i: int| None).update(
            ROOT as int,
            Some(Node::NotYetTransmitted { parent: None }),
        ),
        symbols: Seq::new(MAX_SYMBOLS as nat, |i: int| None),
        nyt: ROOT,
        next: 1,
    }
}

/// Scanning down from `i`: the lowest index reached while the weight stays `w`.
pub open spec fn leader_from(t: Tree, i: int, w: u64) -> Option<usize>
    decreases i,
{
    match node_at(t, i) {
        None => None,
        Some(n) => if n.weight_of() == w {
            if i <= 0 {
                Some(0usize)
            } else {
                leader_from(t, i - 1, w)
            }
        } else {
            Some((i + 1) as usize)
        },
    }
}

/// The block leader of the node at `i`: the smallest index of the run of
/// equal weights that ends at `i`.
pub open spec fn leader_of(t: Tree, i: usize) -> Option<usize> {
    match node_at(t, i as int) {
        None => None,
        Some(n) => leader_from(t, i as int, n.weight_of()),
    }
}

/// `t` with the parent of the node at `i` set to `p`.
pub open spec fn reparented(t: Tree, i: usize, p: usize) -> Option<Tree> {
    match node_at(t, i as int) {
        None => None,
        Some(n) => Some(Tree { nodes: t.nodes.update(i as int, Some(n.with_parent(p))), ..t }),
    }
}

/// `t` with the links into the node that now stands at `i` pointed at `i`: the
/// symbol table for a leaf, the children's parents for an inner node.
pub open spec fn relinked(t: Tree, i: usize) -> Option<Tree> {
    match node_at(t, i as int) {
        Some(Node::Leaf { symbol, .. }) => Some(
            Tree { symbols: t.symbols.update(symbol as int, Some(i)), ..t },
        ),
        Some(Node::Internal { left, right, .. }) => match reparented(t, left, i) {
            None => None,
            Some(t2) => reparented(t2, right, i),
        },
        _ => None,
    }
}

/// `t` with the subtrees at `a` and `b` exchanged; each slot keeps its
/// parent.
pub open spec fn swapped(t: Tree, a: usize, b: usize) -> Option<Tree> {
    match (node_at(t, a as int), node_at(t, b as int)) {
        (Some(na), Some(nb)) => match (na.parent_of(), nb.parent_of()) {
            (Some(pa), Some(pb)) => {
                let t1 = Tree {
                    nodes: t.nodes.update(a as int, Some(nb.with_parent(pa))).update(
                        b as int,
                        Some(na.with_parent(pb)),
                    ),
                    ..t
                };
                match relinked(t1, a) {
                    None => None,
                    Some(t2) => relinked(t2, b),
                }
            },
            _ => None,
        },
        _ => None,
    }
}

/// `t` with the weight at `i` one higher.
pub open spec fn bumped_at(t: Tree, i: usize) -> Option<Tree> {
    match node_at(t, i as int) {
        None => None,
        Some(n) => match n.bumped() {
            None => None,
            Some(m) => Some(Tree { nodes: t.nodes.update(i as int, Some(m)), ..t }),
        },
    }
}

/// One step of the update, at `n`: swap with the block leader unless that is
/// `n` itself or its parent, then add one to the weight. The index where the
/// node ended up comes back with the tree.
pub open spec fn promoted_once(t: Tree, n: usize) -> Option<(Tree, usize)> {
    match (leader_of(t, n), node_at(t, n as int)) {
        (Some(l), Some(nn)) => {
            let at = if l != n && Some(l) != nn.parent_of() {
                l
            } else {
                n
            };
            let t2 = if l != n && Some(l) != nn.parent_of() {
                swapped(t, n, l)
            } else {
                Some(t)
            };
            match t2 {
                None => None,
                Some(t2) => match bumped_at(t2, at) {
                    None => None,
                    Some(t3) => Some((t3, at)),
                },
            }
        },
        _ => None,
    }
}

/// The update from `node` up to the root, in at most `fuel` steps.
pub open spec fn promoted(t: Tree, node: Option<usize>, fuel: nat) -> Option<Tree>
    decreases fuel,
{
    match node {
        None => Some(t),
        Some(n) => if fuel == 0 {
            None
        } else {
            match promoted_once(t, n) {
                None => None,
                Some((t3, at)) => match node_at(t3, at as int) {
                    None => None,
                    Some(m) => promoted(t3, m.parent_of(), (fuel - 1) as nat),
                },
            }
        },
    }
}

/// `t` after symbol `s` has been coded: a new symbol splits the NYT leaf into
/// an inner node over a fresh NYT leaf (at `next + 1`, left) and a leaf for
/// `s` (at `next`, right); then the weights are updated up to the root.
#[verifier::opaque]
pub open spec fn inserted_symbol(t: Tree, s: u8) -> Option<Tree> {
    match t.symbols[s as int] {
        Some(i) => promoted(t, Some(i), MAX_NODES as nat),
        None => if t.next + 1 >= MAX_NODES {
            None
        } else {
            match node_at(t, t.nyt as int) {
                None => None,
                Some(old) => {
                    let internal = t.nyt;
                    let leaf = t.next;
                    let nyt = (t.next + 1) as usize;
                    let p = old.parent_of();
                    let nodes = t.nodes.update(
                        internal as int,
                        Some(Node::Internal { parent: p, left: nyt, right: leaf, weight: 1 }),
                    ).update(leaf as int, Some(Node::Leaf { parent: internal, weight: 1, symbol: s })).update(
                        nyt as int,
                        Some(Node::NotYetTransmitted { parent: Some(internal) }),
                    );
                    let t1 = Tree {
                        nodes,
                        symbols: t.symbols.update(s as int, Some(leaf)),
                        nyt,
                        next: (t.next + 2) as usize,
                    };
                    promoted(t1, p, MAX_NODES as nat)
                },
            }
        },
    }
}

/// The most bits that one call packs: what a bit-vector of bytes can hold on
/// every target.
pub const MAX_PACKED_BITS: usize = 0x1fff_ffff;

/// Bit `i` of `b`: the bits of `b[0]` from the least significant up, then
/// those of `b[1]`, and so on.
pub open spec fn lsb0_bit(b: Seq<u8>, i: int) -> bool {
    (b[i / 8] >> ((i % 8) as u8)) & 1u8 == 1u8
}

/// The bit stream that `b` carries.
pub open spec fn unpacked(b: Seq<u8>) -> Seq<bool> {
    Seq::new(8 * b.len(), |i: int| lsb0_bit(b, i))
}

/// `bytes` carries `bits`, least significant bit first, with the unused high
/// bits of the last byte clear.
pub open spec fn packs(bytes: Seq<u8>, bits: Seq<bool>) -> bool {
    &&& bytes.len() == (bits.len() + 7) / 8
    &&& forall|i: int| 0 <= i < 8 * bytes.len() ==> #[trigger] lsb0_bit(bytes, i) == (i < bits.len() && bits[i])
}

/// Relies on bitvec's `BitVec<u8, Lsb0>`: collecting bools packs them least
/// significant bit first from a zero head, `set_uninitialized(false)` clears
/// the dead bits, and `into_vec` hands out the bytes that hold live bits.
#[verifier::external_body]
fn pack_bits(bits: &Vec<bool>) -> (r: Vec<u8>)
    requires
        bits@.len() <= MAX_PACKED_BITS,
    ensures
        packs(r@, bits@),
{
    let mut bv: bitvec::vec::BitVec<u8, bitvec::order::Lsb0> = bits.iter().copied().collect();
    bv.set_uninitialized(false);
    bv.into_vec()
}

/// Relies on bitvec's `BitSlice::<u8, Lsb0>::from_slice`: bit `i` of `b`,
/// least significant bit of each byte first.
#[verifier::external_body]
fn bit_at(b: &[u8], i: usize) -> (r: bool)
    requires
        b@.len() <= MAX_CODED_BYTES,
        i < 8 * b@.len(),
    ensures
        r == lsb0_bit(b@, i as int),
{
    bitvec::slice::BitSlice::<u8, bitvec::order::Lsb0>::from_slice(b)[i]
}

/// The path from the root to the node at `n`, `false` for a left and `true`
/// for a right child, over at most `fuel` links.
pub open spec fn path(t: Tree, n: usize, fuel: nat) -> Option<Seq<bool>>
    decreases fuel,
{
    match node_at(t, n as int) {
        None => None,
        Some(nn) => match nn.parent_of() {
            None => Some(Seq::empty()),
            Some(p) => if fuel == 0 {
                None
            } else {
                match node_at(t, p as int) {
                    Some(Node::Internal { left, right, .. }) => if left == n {
                        match path(t, p, (fuel - 1) as nat) {
                            Some(q) => Some(q.push(false)),
                            None => None,
                        }
                    } else if right == n {
                        match path(t, p, (fuel - 1) as nat) {
                            Some(q) => Some(q.push(true)),
                            None => None,
                        }
                    } else {
                        None
                    },
                    _ => None,
                }
            },
        },
    }
}

/// Bit `k` of `s`.
pub open spec fn bit_of(s: u8, k: u8) -> bool {
    (s >> k) & 1u8 != 0u8
}

/// The eight bits of a symbol sent after the NYT path: bit 7 first.
pub open spec fn symbol_bits(s: u8) -> Seq<bool> {
    seq![
        bit_of(s, 7),
        bit_of(s, 6),
        bit_of(s, 5),
        bit_of(s, 4),
        bit_of(s, 3),
        bit_of(s, 2),
        bit_of(s, 1),
        bit_of(s, 0),
    ]
}

/// The byte that eight bits spell, the first bit the most significant.
pub open spec fn byte_of(b: Seq<bool>) -> u8 {
    ((if b[0] { 128int } else { 0 }) + (if b[1] { 64int } else { 0 }) + (if b[2] { 32int } else { 0 })
        + (if b[3] { 16int } else { 0 }) + (if b[4] { 8int } else { 0 }) + (if b[5] { 4int } else { 0 })
        + (if b[6] { 2int } else { 0 }) + (if b[7] { 1int } else { 0 })) as u8
}

/// The code of `s` in state `t`: its path if it has been seen, else the NYT
/// path and its eight bits.
pub open spec fn code_of(t: Tree, s: u8) -> Option<Seq<bool>> {
    match t.symbols[s as int] {
        Some(i) => path(t, i, MAX_NODES as nat),
        None => match path(t, t.nyt, MAX_NODES as nat) {
            Some(p) => Some(p + symbol_bits(s)),
            None => None,
        },
    }
}

/// The bits that coding `bytes` from state `t` sends, and the state after.
pub open spec fn encoded(t: Tree, bytes: Seq<u8>) -> Option<(Seq<bool>, Tree)>
    decreases bytes.len(),
{
    if bytes.len() == 0 {
        Some((Seq::empty(), t))
    } else {
        match code_of(t, bytes[0]) {
            None => None,
            Some(c) => match inserted_symbol(t, bytes[0]) {
                None => None,
                Some(t2) => match encoded(t2, bytes.drop_first()) {
                    None => None,
                    Some((rest, t3)) => Some((c + rest, t3)),
                },
            },
        }
    }
}

/// The `n` bytes that the bit stream `bits` spells from state `t`, the walk
/// standing at arena index `at`, and the state after.
#[verifier::opaque]
pub open spec fn decoded(t: Tree, at: usize, bits: Seq<bool>, n: nat) -> Result<(Seq<u8>, Tree), HuffmanError>
    decreases n + bits.len(),
{
    if n == 0 {
        Ok((Seq::empty(), t))
    } else {
        match node_at(t, at as int) {
            None => Err(HuffmanError::ArenaOverflow),
            Some(Node::NotYetTransmitted { .. }) => if bits.len() < 8 {
                Err(HuffmanError::Truncated)
            } else {
                let v = byte_of(bits.subrange(0, 8));
                match inserted_symbol(t, v) {
                    None => Err(HuffmanError::ArenaOverflow),
                    Some(t2) => match decoded(t2, ROOT, bits.subrange(8, bits.len() as int), (n - 1) as nat) {
                        Ok((o, t3)) => Ok((seq![v] + o, t3)),
                        Err(e) => Err(e),
                    },
                }
            },
            Some(Node::Leaf { symbol, .. }) => match inserted_symbol(t, symbol) {
                None => Err(HuffmanError::ArenaOverflow),
                Some(t2) => match decoded(t2, ROOT, bits, (n - 1) as nat) {
                    Ok((o, t3)) => Ok((seq![symbol] + o, t3)),
                    Err(e) => Err(e),
                },
            },
            Some(Node::Internal { left, right, .. }) => if bits.len() == 0 {
                Err(HuffmanError::Truncated)
            } else {
                decoded(t, if bits[0] { right } else { left }, bits.drop_first(), n)
            },
        }
    }
}

/// `o` with `p` put in front of what it holds.
pub open spec fn after_bits(o: Option<Seq<bool>>, p: Seq<bool>) -> Option<Seq<bool>> {
    match o {
        Some(q) => Some(q + p),
        None => None,
    }
}

/// `s` back to front.
pub open spec fn reversed(s: Seq<bool>) -> Seq<bool> {
    Seq::new(s.len(), |i: int| s[s.len() - 1 - i])
}

/// `x` is what `y` holds with `p` put in front of its bits; or both are
/// `None`.
pub open spec fn prefixed(x: Option<(Seq<bool>, Tree)>, p: Seq<bool>, y: Option<(Seq<bool>, Tree)>) -> bool {
    match (x, y) {
        (Some((a, t)), Some((b, t2))) => a == p + b && t == t2,
        (None, None) => true,
        _ => false,
    }
}

proof fn lemma_encoded_step(x: Option<(Seq<bool>, Tree)>, pre: Seq<bool>, t1: Tree, sub: Seq<u8>, t2: Tree)
    requires
        sub.len() > 0,
        code_of(t1, sub[0]) is Some,
        inserted_symbol(t1, sub[0]) == Some(t2),
        prefixed(x, pre, encoded(t1, sub)),
    ensures
        prefixed(x, pre + code_of(t1, sub[0]).unwrap(), encoded(t2, sub.drop_first())),
{
    let c = code_of(t1, sub[0]).unwrap();
    match encoded(t2, sub.drop_first()) {
        Some((y, t3)) => {
            assert(pre + (c + y) =~= (pre + c) + y);
        },
        None => {},
    }
}

/// `x` is what `y` holds with `p` put in front of its bytes; or both are the
/// same error.
pub open spec fn suffixed(
    x: Result<(Seq<u8>, Tree), HuffmanError>,
    p: Seq<u8>,
    y: Result<(Seq<u8>, Tree), HuffmanError>,
) -> bool {
    match (x, y) {
        (Ok((a, t)), Ok((b, t2))) => a == p + b && t == t2,
        (Err(e1), Err(e2)) => e1 == e2,
        _ => false,
    }
}

/// `r` with `v` in front of the bytes it holds.
pub open spec fn led_by(v: u8, r: Result<(Seq<u8>, Tree), HuffmanError>) -> Result<(Seq<u8>, Tree), HuffmanError> {
    match r {
        Ok((o, t)) => Ok((seq![v] + o, t)),
        Err(e) => Err(e),
    }
}

proof fn lemma_suffixed_step(
    x: Result<(Seq<u8>, Tree), HuffmanError>,
    p: Seq<u8>,
    v: u8,
    y: Result<(Seq<u8>, Tree), HuffmanError>,
)
    requires
        suffixed(x, p, led_by(v, y)),
    ensures
        suffixed(x, p.push(v), y),
{
    match y {
        Ok((o, t)) => {
            assert(p + (seq![v] + o) =~= p.push(v) + o);
        },
        Err(e) => {},
    }
}

/// Appends the eight bits of `s`, bit 7 first.
fn push_symbol_bits(bits: &mut Vec<bool>, symbol: u8)
    ensures
        final(bits)@ == old(bits)@ + symbol_bits(symbol),
{
    bits.push((symbol >> 7u8) & 1u8 != 0u8);
    bits.push((symbol >> 6u8) & 1u8 != 0u8);
    bits.push((symbol >> 5u8) & 1u8 != 0u8);
    bits.push((symbol >> 4u8) & 1u8 != 0u8);
    bits.push((symbol >> 3u8) & 1u8 != 0u8);
    bits.push((symbol >> 2u8) & 1u8 != 0u8);
    bits.push((symbol >> 1u8) & 1u8 != 0u8);
    bits.push((symbol >> 0u8) & 1u8 != 0u8);
    assert(final(bits)@ =~= old(bits)@ + symbol_bits(symbol));
}

proof fn lemma_path_len(t: Tree, n: usize, fuel: nat)
    ensures
        path(t, n, fuel) is Some ==> path(t, n, fuel).unwrap().len() <= fuel,
    decreases fuel,
{
    if fuel > 0 {
        match node_at(t, n as int) {
            Some(nn) => match nn.parent_of() {
                Some(p) => lemma_path_len(t, p, (fuel - 1) as nat),
                None => {},
            },
            None => {},
        }
    }
}

/// An adaptive Huffman coder for one message.
pub struct Huffman {
    tree: Vec<Option<Node>>,
    symbol_index: Vec<Option<usize>>,
    nyt: usize,
    next: usize,
}

impl Huffman {
    pub closed spec fn view(&self) -> Tree {
        Tree { nodes: self.tree@, symbols: self.symbol_index@, nyt: self.nyt, next: self.next }
    }

    /// A fresh coder: the tree holds the NYT leaf alone.
    pub fn adaptive() -> (r: Huffman)
        ensures
            r@ == initial(),
            shaped(r@),
    {
        let mut tree: Vec<Option<Node>> = Vec::with_capacity(MAX_NODES);
        let mut i: usize = 0;
        while i < MAX_NODES
            invariant
                i <= MAX_NODES,
                tree@ == Seq::new(i as nat, |j: int| None::<Node>),
            decreases MAX_NODES - i,
        {
            tree.push(None);
            i += 1;
            assert(tree@ =~= Seq::new(i as nat, |j: int| None::<Node>));
        }
        let mut symbol_index: Vec<Option<usize>> = Vec::with_capacity(MAX_SYMBOLS);
        let mut i: usize = 0;
        while i < MAX_SYMBOLS
            invariant
                i <= MAX_SYMBOLS,
                symbol_index@ == Seq::new(i as nat, |j: int| None::<usize>),
            decreases MAX_SYMBOLS - i,
        {
            symbol_index.push(None);
            i += 1;
            assert(symbol_index@ =~= Seq::new(i as nat, |j: int| None::<usize>));
        }
        tree.set(ROOT, Some(Node::NotYetTransmitted { parent: None }));
        let nyt = ROOT;
        let next = nyt + 1;
        Huffman { tree, symbol_index, nyt, next }
    }

    /// The block leader of the node at `index`.
    fn block_leader(&self, index: usize) -> (r: Option<usize>)
        requires
            shaped(self@),
        ensures
            r == leader_of(self@, index),
    {
        let weight = match self.node_ref(index) {
            Some(n) => n.weight(),
            None => return None,
        };
        let mut i = index;
        loop
            invariant
                shaped(self@),
                leader_of(self@, index) == leader_from(self@, i as int, weight),
            decreases i,
        {
            match self.node_ref(i) {
                None => return None,
                Some(n) => {
                    if n.weight() != weight {
                        return Some(i + 1);
                    }
                },
            }
            if i == ROOT {
                return Some(ROOT);
            }
            i -= 1;
        }
    }

    fn set_parent_at(&mut self, i: usize, p: usize) -> (ok: bool)
        requires
            shaped(old(self)@),
        ensures
            shaped(final(self)@),
            ok == reparented(old(self)@, i, p) is Some,
            ok ==> final(self)@ == reparented(old(self)@, i, p).unwrap(),
    {
        match self.node_ref(i) {
            None => false,
            Some(n) => {
                let mut m = n;
                m.set_parent(p);
                self.tree.set(i, Some(m));
                proof {
                    assert(self@.nodes =~= old(self)@.nodes.update(i as int, Some(n.with_parent(p))));
                }
                true
            },
        }
    }

    /// Points the links into the node now at `i` back at `i`.
    fn relink(&mut self, i: usize) -> (ok: bool)
        requires
            shaped(old(self)@),
        ensures
            shaped(final(self)@),
            ok == relinked(old(self)@, i) is Some,
            ok ==> final(self)@ == relinked(old(self)@, i).unwrap(),
    {
        match self.node_ref(i) {
            Some(Node::Leaf { symbol, .. }) => {
                self.symbol_index.set(symbol as usize, Some(i));
                true
            },
            Some(Node::Internal { left, right, .. }) => {
                if !self.set_parent_at(left, i) {
                    return false;
                }
                self.set_parent_at(right, i)
            },
            _ => false,
        }
    }

    /// Exchanges the subtrees at `a` and `b`; each slot keeps its parent.
    fn swap_nodes(&mut self, a: usize, b: usize) -> (ok: bool)
        requires
            shaped(old(self)@),
        ensures
            shaped(final(self)@),
            ok == swapped(old(self)@, a, b) is Some,
            ok ==> final(self)@ == swapped(old(self)@, a, b).unwrap(),
    {
        let na = match self.node_ref(a) {
            Some(n) => n,
            None => return false,
        };
        let nb = match self.node_ref(b) {
            Some(n) => n,
            None => return false,
        };
        let a_parent = match na.parent() {
            Some(p) => p,
            None => return false,
        };
        let b_parent = match nb.parent() {
            Some(p) => p,
            None => return false,
        };
        let mut x = nb;
        x.set_parent(a_parent);
        let mut y = na;
        y.set_parent(b_parent);
        self.tree.set(a, Some(x));
        self.tree.set(b, Some(y));
        if !self.relink(a) {
            return false;
        }
        self.relink(b)
    }

    /// Adds one to the weight at `i`.
    fn increase_weight_at(&mut self, i: usize) -> (ok: bool)
        requires
            shaped(old(self)@),
        ensures
            shaped(final(self)@),
            ok == bumped_at(old(self)@, i) is Some,
            ok ==> final(self)@ == bumped_at(old(self)@, i).unwrap(),
    {
        match self.node_ref(i) {
            None => false,
            Some(n) => {
                let mut m = n;
                if !m.increase_weight() {
                    return false;
                }
                self.tree.set(i, Some(m));
                true
            },
        }
    }

    /// Updates the tree after `symbol` has been coded; see [`inserted_symbol`].
    fn insert(&mut self, symbol: u8) -> (ok: bool)
        requires
            shaped(old(self)@),
        ensures
            shaped(final(self)@),
            ok == inserted_symbol(old(self)@, symbol) is Some,
            ok ==> final(self)@ == inserted_symbol(old(self)@, symbol).unwrap(),
    {
        reveal(inserted_symbol);
        let ghost t0 = self@;
        let mut node = match self.symbol_index[symbol as usize] {
            Some(i) => Some(i),
            None => {
                if self.next >= MAX_NODES - 1 {
                    return false;
                }
                let internal_index = self.nyt;
                let leaf_index = self.next;
                let nyt_index = self.next + 1;
                let nyt_parent = match self.node_ref(self.nyt) {
                    Some(n) => n.parent(),
                    None => return false,
                };
                self.next = self.next + 2;
                self.tree.set(
                    internal_index,
                    Some(Node::Internal { parent: nyt_parent, left: nyt_index, right: leaf_index, weight: 1 }),
                );
                self.tree.set(leaf_index, Some(Node::Leaf { parent: internal_index, weight: 1, symbol }));
                self.tree.set(nyt_index, Some(Node::NotYetTransmitted { parent: Some(internal_index) }));
                self.symbol_index.set(symbol as usize, Some(leaf_index));
                self.nyt = nyt_index;
                nyt_parent
            },
        };
        let mut fuel: usize = MAX_NODES;
        assert(inserted_symbol(t0, symbol) == promoted(self@, node, fuel as nat));
        while node.is_some()
            invariant
                shaped(self@),
                t0 == old(self)@,
                inserted_symbol(t0, symbol) == promoted(self@, node, fuel as nat),
            decreases fuel,
        {
            let mut node_index = node.unwrap();
            if fuel == 0 {
                return false;
            }
            let ghost t1 = self@;
            let ghost n0 = node_index;
            let leader = match self.block_leader(node_index) {
                Some(l) => l,
                None => return false,
            };
            let parent = match self.node_ref(node_index) {
                Some(n) => n.parent(),
                None => return false,
            };
            if leader != node_index && Some(leader) != parent {
                if !self.swap_nodes(node_index, leader) {
                    return false;
                }
                node_index = leader;
            }
            if !self.increase_weight_at(node_index) {
                return false;
            }
            node = match self.node_ref(node_index) {
                Some(n) => n.parent(),
                None => return false,
            };
            fuel = fuel - 1;
            assert(promoted_once(t1, n0) == Some((self@, node_index)));
        }
        true
    }

    /// Appends the path from the root to the node at `node`.
    fn emit(&self, node: usize, bits: &mut Vec<bool>) -> (ok: bool)
        ensures
            ok == path(self@, node, MAX_NODES as nat) is Some,
            ok ==> final(bits)@ == old(bits)@ + path(self@, node, MAX_NODES as nat).unwrap(),
    {
        let mut up: Vec<bool> = Vec::new();
        let mut cur = node;
        let mut fuel: usize = MAX_NODES;
        assert(after_bits(path(self@, cur, fuel as nat), reversed(up@)) =~= path(self@, node, MAX_NODES as nat)) by {
            if path(self@, cur, fuel as nat) is Some {
                assert(path(self@, cur, fuel as nat).unwrap() + reversed(up@) =~= path(self@, cur, fuel as nat).unwrap());
            }
        }
        loop
            invariant
                fuel <= MAX_NODES,
                up@.len() + fuel <= MAX_NODES,
                path(self@, node, MAX_NODES as nat) == after_bits(path(self@, cur, fuel as nat), reversed(up@)),
            ensures
                path(self@, node, MAX_NODES as nat) == Some(reversed(up@)),
            decreases fuel,
        {
            let n = match self.node_ref(cur) {
                Some(n) => n,
                None => return false,
            };
            match n.parent() {
                None => {
                    assert(path(self@, cur, fuel as nat) == Some(Seq::<bool>::empty()));
                    assert(Seq::<bool>::empty() + reversed(up@) =~= reversed(up@));
                    break;
                },
                Some(p) => {
                    if fuel == 0 {
                        return false;
                    }
                    let ghost before = up@;
                    let b = match self.node_ref(p) {
                        Some(Node::Internal { left, right, .. }) => {
                            if left == cur {
                                false
                            } else if right == cur {
                                true
                            } else {
                                return false;
                            }
                        },
                        _ => return false,
                    };
                    up.push(b);
                    proof {
                        assert(reversed(up@) =~= seq![b] + reversed(before));
                        if path(self@, p, (fuel - 1) as nat) is Some {
                            let q = path(self@, p, (fuel - 1) as nat).unwrap();
                            assert(q.push(b) + reversed(before) =~= q + reversed(up@));
                        }
                    }
                    cur = p;
                    fuel = fuel - 1;
                },
            }
        }
        let ghost r = reversed(up@);
        let mut k = up.len();
        while k > 0
            invariant
                path(self@, node, MAX_NODES as nat) == Some(r),
                k <= up@.len(),
                r == reversed(up@),
                bits@ == old(bits)@ + r.subrange(0, up@.len() - k),
            decreases k,
        {
            k = k - 1;
            bits.push(up[k]);
            assert(r.subrange(0, up@.len() - k) =~= r.subrange(0, up@.len() - k - 1) + seq![up@[k as int]]);
        }
        assert(r.subrange(0, up@.len() as int) =~= r);
        true
    }

    /// Codes `bytes` and returns the bits, packed least significant bit
    /// first; the tree is updated after each symbol.
    pub fn encode(&mut self, bytes: &[u8]) -> (r: Result<Vec<u8>, HuffmanError>)
        requires
            shaped(old(self)@),
            bytes@.len() <= MAX_CODED_BYTES,
        ensures
            shaped(final(self)@),
            match encoded(old(self)@, bytes@) {
                Some((bits, t)) => r is Ok && packs(r.unwrap()@, bits) && final(self)@ == t,
                None => r == Err::<Vec<u8>, HuffmanError>(HuffmanError::ArenaOverflow),
            },
    {
        let mut bits: Vec<bool> = Vec::new();
        let mut i: usize = 0;
        let n = bytes.len();
        proof {
            assert(bytes@.subrange(0, n as int) =~= bytes@);
            if encoded(self@, bytes@) is Some {
                let (x, t) = encoded(self@, bytes@).unwrap();
                assert(bits@ + x =~= x);
            }
        }
        while i < n
            invariant
                n == bytes@.len(),
                n <= MAX_CODED_BYTES,
                i <= n,
                shaped(self@),
                bits@.len() <= 519 * i,
                prefixed(encoded(old(self)@, bytes@), bits@, encoded(self@, bytes@.subrange(i as int, n as int))),
            decreases n - i,
        {
            let symbol = bytes[i];
            let ghost t1 = self@;
            let ghost before = bits@;
            let ghost sub = bytes@.subrange(i as int, n as int);
            match self.symbol_index[symbol as usize] {
                Some(index) => {
                    if !self.emit(index, &mut bits) {
                        return Err(HuffmanError::ArenaOverflow);
                    }
                    proof {
                        lemma_path_len(t1, index, MAX_NODES as nat);
                    }
                },
                None => {
                    if !self.emit(self.nyt, &mut bits) {
                        return Err(HuffmanError::ArenaOverflow);
                    }
                    proof {
                        lemma_path_len(t1, t1.nyt, MAX_NODES as nat);
                    }
                    push_symbol_bits(&mut bits, symbol);
                    proof {
                        let p = path(t1, t1.nyt, MAX_NODES as nat).unwrap();
                        assert(bits@ =~= before + (p + symbol_bits(symbol)));
                    }
                },
            }
            assert(code_of(t1, symbol) is Some && bits@ == before + code_of(t1, symbol).unwrap());
            if !self.insert(symbol) {
                return Err(HuffmanError::ArenaOverflow);
            }
            proof {
                assert(sub.drop_first() =~= bytes@.subrange(i + 1, n as int));
                lemma_encoded_step(encoded(old(self)@, bytes@), before, t1, sub, self@);
            }
            i += 1;
        }
        proof {
            assert(bytes@.subrange(n as int, n as int) =~= Seq::<u8>::empty());
            assert(bits@ + Seq::<bool>::empty() =~= bits@);
        }
        Ok(pack_bits(&bits))
    }

    /// The eight bits of `bits` from `pos` on, read as a byte whose most
    /// significant bit comes first; `None` where fewer than eight remain.
    fn read_symbol(bits: &[u8], pos: usize) -> (r: Option<u8>)
        requires
            bits@.len() <= MAX_CODED_BYTES,
            pos <= 8 * bits@.len(),
        ensures
            match r {
                Some(v) => pos + 8 <= 8 * bits@.len() && v == byte_of(
                    unpacked(bits@).subrange(pos as int, pos + 8),
                ),
                None => pos + 8 > 8 * bits@.len(),
            },
    {
        let n = 8 * bits.len();
        if n - pos < 8 {
            return None;
        }
        let b0 = bit_at(bits, pos);
        let b1 = bit_at(bits, pos + 1);
        let b2 = bit_at(bits, pos + 2);
        let b3 = bit_at(bits, pos + 3);
        let b4 = bit_at(bits, pos + 4);
        let b5 = bit_at(bits, pos + 5);
        let b6 = bit_at(bits, pos + 6);
        let b7 = bit_at(bits, pos + 7);
        let value: u8 = (if b0 { 128u8 } else { 0u8 }) + (if b1 { 64u8 } else { 0u8 }) + (if b2 { 32u8 } else { 0u8 })
            + (if b3 { 16u8 } else { 0u8 }) + (if b4 { 8u8 } else { 0u8 }) + (if b5 { 4u8 } else { 0u8 })
            + (if b6 { 2u8 } else { 0u8 }) + (if b7 { 1u8 } else { 0u8 });
        let ghost w = unpacked(bits@).subrange(pos as int, pos + 8);
        assert(w[0] == b0 && w[1] == b1 && w[2] == b2 && w[3] == b3);
        assert(w[4] == b4 && w[5] == b5 && w[6] == b6 && w[7] == b7);
        Some(value)
    }

    /// Decodes exactly `length` bytes from the bit stream `bits` (least
    /// significant bit first) and appends them to `bytes`; the tree is
    /// updated after each symbol.
    pub fn decode(&mut self, bits: &[u8], length: usize, bytes: &mut Vec<u8>) -> (r: Result<(), HuffmanError>)
        requires
            shaped(old(self)@),
            bits@.len() <= MAX_CODED_BYTES,
        ensures
            shaped(final(self)@),
            match decoded(old(self)@, ROOT, unpacked(bits@), length as nat) {
                Ok((out, t)) => r is Ok && final(bytes)@ == old(bytes)@ + out && final(self)@ == t,
                Err(e) => r == Err::<(), HuffmanError>(e),
            },
    {
        reveal(decoded);
        let nbits = 8 * bits.len();
        let ghost all = unpacked(bits@);
        let ghost mut out = Seq::<u8>::empty();
        let mut node_index = ROOT;
        let mut written: usize = 0;
        let mut pos: usize = 0;
        proof {
            assert(all.subrange(0, nbits as int) =~= all);
            assert(bytes@ =~= old(bytes)@ + out);
            match decoded(self@, ROOT, all, length as nat) {
                Ok((o, t)) => {
                    assert(out + o =~= o);
                },
                Err(e) => {},
            }
        }
        while written < length
            invariant
                shaped(self@),
                nbits == 8 * bits@.len(),
                bits@.len() <= MAX_CODED_BYTES,
                all == unpacked(bits@),
                pos <= nbits,
                written <= length,
                bytes@ == old(bytes)@ + out,
                suffixed(
                    decoded(old(self)@, ROOT, all, length as nat),
                    out,
                    decoded(self@, node_index, all.subrange(pos as int, nbits as int), (length - written) as nat),
                ),
            decreases (length - written) + (nbits - pos),
        {
            reveal(decoded);
            let ghost rest = all.subrange(pos as int, nbits as int);
            match self.node_ref(node_index) {
                None => {
                    return Err(HuffmanError::ArenaOverflow);
                },
                Some(Node::NotYetTransmitted { .. }) => {
                    let value = match Self::read_symbol(bits, pos) {
                        Some(v) => v,
                        None => {
                            return Err(HuffmanError::Truncated);
                        },
                    };
                    proof {
                        assert(rest.subrange(0, 8) =~= all.subrange(pos as int, pos + 8));
                        assert(rest.subrange(8, rest.len() as int) =~= all.subrange(pos + 8, nbits as int));
                    }
                    pos = pos + 8;
                    bytes.push(value);
                    written = written + 1;
                    if !self.insert(value) {
                        return Err(HuffmanError::ArenaOverflow);
                    }
                    proof {
                        lemma_suffixed_step(
                            decoded(old(self)@, ROOT, all, length as nat),
                            out,
                            value,
                            decoded(self@, ROOT, all.subrange(pos as int, nbits as int), (length - written) as nat),
                        );
                        out = out.push(value);
                    }
                    node_index = ROOT;
                },
                Some(Node::Leaf { symbol, .. }) => {
                    bytes.push(symbol);
                    written = written + 1;
                    if !self.insert(symbol) {
                        return Err(HuffmanError::ArenaOverflow);
                    }
                    proof {
                        lemma_suffixed_step(
                            decoded(old(self)@, ROOT, all, length as nat),
                            out,
                            symbol,
                            decoded(self@, ROOT, all.subrange(pos as int, nbits as int), (length - written) as nat),
                        );
                        out = out.push(symbol);
                    }
                    node_index = ROOT;
                },
                Some(Node::Internal { left, right, .. }) => {
                    if pos >= nbits {
                        return Err(HuffmanError::Truncated);
                    }
                    let bit = bit_at(bits, pos);
                    proof {
                        assert(rest[0] == bit);
                        assert(rest.drop_first() =~= all.subrange(pos + 1, nbits as int));
                    }
                    pos = pos + 1;
                    node_index = if bit {
                        right
                    } else {
                        left
                    };
                },
            }
        }
        proof {
            match decoded(old(self)@, ROOT, all, length as nat) {
                Ok((o, t)) => {
                    assert(out + Seq::<u8>::empty() =~= out);
                },
                Err(e) => {},
            }
        }
        Ok(())
    }

    /// The arena index of the leaf of `symbol`, if it has been seen.
    pub fn symbol_leaf(&self, symbol: u8) -> (r: Option<usize>)
        requires
            shaped(self@),
        ensures
            r == self@.symbols[symbol as int],
    {
        self.symbol_index[symbol as usize]
    }

    /// The node at arena index `index`, if the slot is populated.
    pub fn node(&self, index: usize) -> (r: Option<Node>)
        ensures
            r == node_at(self@, index as int),
    {
        self.node_ref(index)
    }

    /// The node at `index`, if the slot is populated.
    fn node_ref(&self, index: usize) -> (r: Option<Node>)
        ensures
            r == node_at(self@, index as int),
    {
        if index < self.tree.len() {
            self.tree[index]
        } else {
            None
        }
    }
}

} // verus!

verus! {

/// The node at `i` is the leaf of symbol `s`.
pub open spec fn leaf_of(t: Tree, i: int, s: int) -> bool {
    match node_at(t, i) {
        Some(Node::Leaf { symbol, .. }) => symbol == s,
        _ => false,
    }
}

/// The symbol of a leaf.
pub open spec fn leaf_symbol(n: Option<Node>) -> Option<u8> {
    match n {
        Some(Node::Leaf { symbol, .. }) => Some(symbol),
        _ => None,
    }
}

/// `a` and `b` are nodes of the same kind, leaves of the same symbol.
pub open spec fn same_kind(a: Option<Node>, b: Option<Node>) -> bool {
    match (a, b) {
        (None, None) => true,
        (Some(Node::NotYetTransmitted { .. }), Some(Node::NotYetTransmitted { .. })) => true,
        (Some(Node::Leaf { symbol: x, .. }), Some(Node::Leaf { symbol: y, .. })) => x == y,
        (Some(Node::Internal { .. }), Some(Node::Internal { .. })) => true,
        _ => false,
    }
}

/// The links that coding relies on: only the root lacks a parent, the NYT
/// slot holds the NYT leaf, slots from `next` on are empty, and the symbol
/// table and the leaves agree both ways.
#[verifier::opaque]
pub open spec fn linked(t: Tree) -> bool {
    &&& shaped(t)
    &&& t.nyt < t.next <= MAX_NODES
    &&& node_at(t, t.nyt as int) matches Some(Node::NotYetTransmitted { .. })
    &&& forall|i: int| t.next <= i < MAX_NODES ==> #[trigger] t.nodes[i] is None
    &&& forall|i: int|
        0 < i < MAX_NODES && #[trigger] t.nodes[i] is Some ==> t.nodes[i].unwrap().parent_of() is Some
    &&& forall|s: int|
        0 <= s < MAX_SYMBOLS && #[trigger] t.symbols[s] is Some ==> leaf_of(t, t.symbols[s].unwrap() as int, s)
    &&& forall|i: int|
        0 <= i < MAX_NODES && (#[trigger] leaf_symbol(t.nodes[i])) is Some ==> t.symbols[leaf_symbol(
            t.nodes[i],
        ).unwrap() as int] == Some(i as usize)
}

/// `t2` differs from `t` at most in weights and in parents that it sets.
pub open spec fn resembles(t: Tree, t2: Tree) -> bool {
    &&& t2.symbols == t.symbols
    &&& t2.nyt == t.nyt
    &&& t2.next == t.next
    &&& t2.nodes.len() == t.nodes.len()
    &&& forall|j: int| same_kind(#[trigger] node_at(t, j), node_at(t2, j))
    &&& forall|j: int| (#[trigger] node_at(t, j)) is Some && node_at(t, j).unwrap().parent_of() is Some
        ==> node_at(t2, j).unwrap().parent_of() is Some
}

proof fn lemma_resembles_linked(t: Tree, t2: Tree)
    requires
        linked(t),
        resembles(t, t2),
    ensures
        linked(t2),
{
    reveal(linked);
    assert forall|i: int| t2.next <= i < MAX_NODES implies #[trigger] t2.nodes[i] is None by {
        assert(same_kind(node_at(t, i), node_at(t2, i)));
    }
    assert forall|i: int| 0 < i < MAX_NODES && #[trigger] t2.nodes[i] is Some implies t2.nodes[
        i
    ].unwrap().parent_of() is Some by {
        assert(same_kind(node_at(t, i), node_at(t2, i)));
        assert(t.nodes[i] is Some);
    }
    assert forall|s: int|
        0 <= s < MAX_SYMBOLS && #[trigger] t2.symbols[s] is Some implies leaf_of(
        t2,
        t2.symbols[s].unwrap() as int,
        s,
    ) by {
        let j = t.symbols[s].unwrap() as int;
        assert(same_kind(node_at(t, j), node_at(t2, j)));
    }
    assert forall|i: int|
        0 <= i < MAX_NODES && (#[trigger] leaf_symbol(t2.nodes[i])) is Some implies t2.symbols[leaf_symbol(
            t2.nodes[i],
        ).unwrap() as int] == Some(i as usize) by {
        assert(same_kind(node_at(t, i), node_at(t2, i)));
        assert(node_at(t, i) == t.nodes[i] && node_at(t2, i) == t2.nodes[i]);
        assert(leaf_symbol(t.nodes[i]) == leaf_symbol(t2.nodes[i]));
    }
    assert(same_kind(node_at(t, t.nyt as int), node_at(t2, t2.nyt as int)));
}

proof fn lemma_reparented(t: Tree, i: usize, p: usize)
    requires
        reparented(t, i, p) is Some,
    ensures
        resembles(t, reparented(t, i, p).unwrap()),
        node_at(reparented(t, i, p).unwrap(), i as int).unwrap().parent_of() == Some(p),
        forall|j: int| j != i ==> node_at(reparented(t, i, p).unwrap(), j) == node_at(t, j),
{
    let t2 = reparented(t, i, p).unwrap();
    assert forall|j: int| same_kind(#[trigger] node_at(t, j), node_at(t2, j)) by {}
}

proof fn lemma_bumped(t: Tree, i: usize)
    requires
        bumped_at(t, i) is Some,
    ensures
        resembles(t, bumped_at(t, i).unwrap()),
{
    let t2 = bumped_at(t, i).unwrap();
    assert forall|j: int| same_kind(#[trigger] node_at(t, j), node_at(t2, j)) by {}
}

proof fn lemma_resembles_trans(t: Tree, t2: Tree, t3: Tree)
    requires
        resembles(t, t2),
        resembles(t2, t3),
    ensures
        resembles(t, t3),
{
    assert forall|j: int| same_kind(#[trigger] node_at(t, j), node_at(t3, j)) by {
        assert(same_kind(node_at(t2, j), node_at(t3, j)));
    }
    assert forall|j: int| (#[trigger] node_at(t, j)) is Some && node_at(t, j).unwrap().parent_of() is Some
        implies node_at(t3, j).unwrap().parent_of() is Some by {
        assert(same_kind(node_at(t, j), node_at(t2, j)));
    }
}

/// `t2` has the nodes of `t`, but for weights and parents that it sets.
pub open spec fn resembles_nodes(t: Tree, t2: Tree) -> bool {
    &&& t2.nyt == t.nyt
    &&& t2.next == t.next
    &&& t2.nodes.len() == t.nodes.len()
    &&& forall|j: int| same_kind(#[trigger] node_at(t, j), node_at(t2, j))
    &&& forall|j: int| (#[trigger] node_at(t, j)) is Some && node_at(t, j).unwrap().parent_of() is Some
        ==> node_at(t2, j).unwrap().parent_of() is Some
}

proof fn lemma_resembles_nodes_trans(t: Tree, t2: Tree, t3: Tree)
    requires
        resembles_nodes(t, t2),
        resembles_nodes(t2, t3),
    ensures
        resembles_nodes(t, t3),
{
    assert forall|j: int| same_kind(#[trigger] node_at(t, j), node_at(t3, j)) by {
        assert(same_kind(node_at(t2, j), node_at(t3, j)));
    }
    assert forall|j: int| (#[trigger] node_at(t, j)) is Some && node_at(t, j).unwrap().parent_of() is Some
        implies node_at(t3, j).unwrap().parent_of() is Some by {
        assert(same_kind(node_at(t, j), node_at(t2, j)));
    }
}

proof fn lemma_relinked(t: Tree, i: usize)
    requires
        relinked(t, i) is Some,
    ensures
        resembles_nodes(t, relinked(t, i).unwrap()),
        node_at(t, i as int) is Some,
        !(node_at(t, i as int) matches Some(Node::NotYetTransmitted { .. })),
        match leaf_symbol(node_at(t, i as int)) {
            Some(x) => relinked(t, i).unwrap().symbols == t.symbols.update(x as int, Some(i)),
            None => relinked(t, i).unwrap().symbols == t.symbols,
        },
{
    let t2 = relinked(t, i).unwrap();
    match node_at(t, i as int) {
        Some(Node::Leaf { symbol, .. }) => {
            assert forall|j: int| same_kind(#[trigger] node_at(t, j), node_at(t2, j)) by {}
        },
        Some(Node::Internal { left, right, .. }) => {
            let ta = reparented(t, left, i).unwrap();
            lemma_reparented(t, left, i);
            lemma_reparented(ta, right, i);
            lemma_resembles_trans(t, ta, t2);
        },
        _ => {},
    }
}

/// Exchanging two distinct subtrees keeps the links that coding relies on.
proof fn lemma_swapped_linked(t: Tree, a: usize, b: usize)
    requires
        linked(t),
        a != b,
        swapped(t, a, b) is Some,
    ensures
        linked(swapped(t, a, b).unwrap()),
{
    reveal(linked);
    let na = node_at(t, a as int).unwrap();
    let nb = node_at(t, b as int).unwrap();
    let pa = na.parent_of().unwrap();
    let pb = nb.parent_of().unwrap();
    let t1 = Tree {
        nodes: t.nodes.update(a as int, Some(nb.with_parent(pa))).update(b as int, Some(na.with_parent(pb))),
        ..t
    };
    let t2 = relinked(t1, a).unwrap();
    let t3 = relinked(t2, b).unwrap();
    assert(swapped(t, a, b).unwrap() == t3);
    lemma_relinked(t1, a);
    lemma_relinked(t2, b);
    lemma_resembles_nodes_trans(t1, t2, t3);
    assert(a < MAX_NODES && b < MAX_NODES);
    assert(same_kind(node_at(t1, b as int), node_at(t2, b as int)));
    let xa = leaf_symbol(node_at(t1, a as int));
    let xb = leaf_symbol(node_at(t2, b as int));
    assert(xa == leaf_symbol(Some(nb)));
    assert(xb == leaf_symbol(Some(na)));
    assert(t.nyt != a && t.nyt != b);
    // kinds of t3 against t
    assert forall|j: int| 0 <= j < MAX_NODES && j != a && j != b implies same_kind(
        #[trigger] node_at(t, j),
        node_at(t3, j),
    ) by {
        assert(node_at(t1, j) == node_at(t, j));
        assert(same_kind(node_at(t1, j), node_at(t3, j)));
    }
    assert(same_kind(node_at(t1, a as int), node_at(t3, a as int)));
    assert(same_kind(node_at(t1, b as int), node_at(t3, b as int)));
    assert(same_kind(node_at(t1, t.nyt as int), node_at(t3, t.nyt as int)));
    // empty slots
    assert forall|i: int| t3.next <= i < MAX_NODES implies #[trigger] t3.nodes[i] is None by {
        assert(t.nodes[i] is None);
        assert(same_kind(node_at(t1, i), node_at(t3, i)));
    }
    // parents
    assert forall|i: int| 0 < i < MAX_NODES && #[trigger] t3.nodes[i] is Some implies t3.nodes[
        i
    ].unwrap().parent_of() is Some by {
        assert(same_kind(node_at(t1, i), node_at(t3, i)));
        if i != a && i != b {
            assert(t.nodes[i] is Some);
            assert(node_at(t1, i) == node_at(t, i));
        }
        assert(node_at(t1, i) is Some && node_at(t1, i).unwrap().parent_of() is Some);
    }
    // the symbol table points at leaves
    assert forall|s: int|
        0 <= s < MAX_SYMBOLS && #[trigger] t3.symbols[s] is Some implies leaf_of(
        t3,
        t3.symbols[s].unwrap() as int,
        s,
    ) by {
        if xb is Some && s == xb.unwrap() {
        } else if xa is Some && s == xa.unwrap() {
        } else {
            assert(t3.symbols[s] == t.symbols[s]);
            let j = t.symbols[s].unwrap() as int;
            assert(leaf_of(t, j, s));
            if j == a {
                assert(xb == Some(s as u8));
            } else if j == b {
                assert(xa == Some(s as u8));
            } else {
                assert(same_kind(node_at(t, j), node_at(t3, j)));
            }
        }
    }
    // each leaf is in the symbol table
    assert forall|i: int|
        0 <= i < MAX_NODES && (#[trigger] leaf_symbol(t3.nodes[i])) is Some implies t3.symbols[leaf_symbol(
            t3.nodes[i],
        ).unwrap() as int] == Some(i as usize) by {
        let y = leaf_symbol(t3.nodes[i]).unwrap();
        assert(node_at(t3, i) == t3.nodes[i]);
        if i == b {
            assert(xb == Some(y));
        } else if i == a {
            assert(xa == Some(y));
            if xb == Some(y) {
                assert(leaf_symbol(t.nodes[a as int]) == Some(y));
                assert(leaf_symbol(t.nodes[b as int]) == Some(y));
            }
        } else {
            assert(same_kind(node_at(t, i), node_at(t3, i)));
            assert(leaf_symbol(t.nodes[i]) == Some(y));
            if xa == Some(y) {
                assert(leaf_symbol(t.nodes[b as int]) == Some(y));
            }
            if xb == Some(y) {
                assert(leaf_symbol(t.nodes[a as int]) == Some(y));
            }
        }
    }
}

proof fn lemma_promoted_linked(t: Tree, node: Option<usize>, fuel: nat)
    requires
        linked(t),
        promoted(t, node, fuel) is Some,
    ensures
        linked(promoted(t, node, fuel).unwrap()),
    decreases fuel,
{
    if let Some(n) = node {
        let (t3, at) = promoted_once(t, n).unwrap();
        let l = leader_of(t, n).unwrap();
        let nn = node_at(t, n as int).unwrap();
        if l != n && Some(l) != nn.parent_of() {
            let t2 = swapped(t, n, l).unwrap();
            lemma_swapped_linked(t, n, l);
            lemma_bumped(t2, at);
            lemma_resembles_linked(t2, t3);
        } else {
            lemma_bumped(t, at);
            lemma_resembles_linked(t, t3);
        }
        let m = node_at(t3, at as int).unwrap();
        lemma_promoted_linked(t3, m.parent_of(), (fuel - 1) as nat);
    }
}

/// Coding a symbol keeps the links that coding relies on.
proof fn lemma_inserted_linked(t: Tree, s: u8)
    requires
        linked(t),
        inserted_symbol(t, s) is Some,
    ensures
        linked(inserted_symbol(t, s).unwrap()),
{
    reveal(inserted_symbol);
    reveal(linked);
    match t.symbols[s as int] {
        Some(i) => {
            lemma_promoted_linked(t, Some(i), MAX_NODES as nat);
        },
        None => {
            let old = node_at(t, t.nyt as int).unwrap();
            let internal = t.nyt;
            let leaf = t.next;
            let nyt = (t.next + 1) as usize;
            let p = old.parent_of();
            let nodes = t.nodes.update(
                internal as int,
                Some(Node::Internal { parent: p, left: nyt, right: leaf, weight: 1 }),
            ).update(leaf as int, Some(Node::Leaf { parent: internal, weight: 1, symbol: s })).update(
                nyt as int,
                Some(Node::NotYetTransmitted { parent: Some(internal) }),
            );
            let t1 = Tree {
                nodes,
                symbols: t.symbols.update(s as int, Some(leaf)),
                nyt,
                next: (t.next + 2) as usize,
            };
            assert(t.nodes[leaf as int] is None && t.nodes[nyt as int] is None);
            assert forall|i: int| t1.next <= i < MAX_NODES implies #[trigger] t1.nodes[i] is None by {
                assert(t.nodes[i] is None);
            }
            assert forall|i: int| 0 < i < MAX_NODES && #[trigger] t1.nodes[i] is Some implies t1.nodes[
                i
            ].unwrap().parent_of() is Some by {
                if i == internal {
                    assert(t.nodes[i] is Some);
                } else if i != leaf && i != nyt {
                    assert(t.nodes[i] is Some);
                }
            }
            assert forall|x: int|
                0 <= x < MAX_SYMBOLS && #[trigger] t1.symbols[x] is Some implies leaf_of(
                t1,
                t1.symbols[x].unwrap() as int,
                x,
            ) by {
                if x != s {
                    let j = t.symbols[x].unwrap() as int;
                    assert(leaf_of(t, j, x));
                    assert(j != internal && j != leaf && j != nyt);
                }
            }
            assert forall|i: int|
                0 <= i < MAX_NODES && (#[trigger] leaf_symbol(t1.nodes[i])) is Some implies t1.symbols[leaf_symbol(
                    t1.nodes[i],
                ).unwrap() as int] == Some(i as usize) by {
                if i != internal && i != leaf && i != nyt {
                    let y = leaf_symbol(t.nodes[i]).unwrap();
                    assert(t.symbols[y as int] == Some(i as usize));
                    assert(y != s);
                }
            }
            assert(linked(t1));
            assert(inserted_symbol(t, s) == promoted(t1, p, MAX_NODES as nat));
            lemma_promoted_linked(t1, p, MAX_NODES as nat);
        },
    }
}

proof fn lemma_initial_linked()
    ensures
        linked(initial()),
{
    reveal(linked);
    let t = initial();
    assert forall|i: int| 0 < i < MAX_NODES && #[trigger] t.nodes[i] is Some implies t.nodes[
        i
    ].unwrap().parent_of() is Some by {}
    assert forall|i: int|
        0 <= i < MAX_NODES && (#[trigger] leaf_symbol(t.nodes[i])) is Some implies t.symbols[leaf_symbol(
            t.nodes[i],
        ).unwrap() as int] == Some(i as usize) by {}
}

/// Walking down from the root along the path to `n` reaches `n`.
proof fn lemma_walk(t: Tree, n: usize, fuel: nat, rest: Seq<bool>, k: nat)
    requires
        linked(t),
        k > 0,
        path(t, n, fuel) is Some,
    ensures
        decoded(t, ROOT, path(t, n, fuel).unwrap() + rest, k) == decoded(t, n, rest, k),
    decreases fuel,
{
    reveal(decoded);
    reveal(linked);
    let q = path(t, n, fuel).unwrap();
    let nn = node_at(t, n as int).unwrap();
    match nn.parent_of() {
        None => {
            assert(n == ROOT);
            assert(q + rest =~= rest);
        },
        Some(p) => {
            let q0 = path(t, p, (fuel - 1) as nat).unwrap();
            let b = q.last();
            assert(q == q0.push(b));
            lemma_walk(t, p, (fuel - 1) as nat, seq![b] + rest, k);
            assert(q + rest =~= q0 + (seq![b] + rest));
            assert((seq![b] + rest).drop_first() =~= rest);
        },
    }
}

/// The eight bits of a symbol spell the symbol.
proof fn lemma_byte_of_symbol_bits(s: u8)
    ensures
        byte_of(symbol_bits(s)) == s,
{
    let b = symbol_bits(s);
    assert((s >> 7u8) & 1u8 == 0u8 || (s >> 7u8) & 1u8 == 1u8) by (bit_vector);
    assert((s >> 6u8) & 1u8 == 0u8 || (s >> 6u8) & 1u8 == 1u8) by (bit_vector);
    assert((s >> 5u8) & 1u8 == 0u8 || (s >> 5u8) & 1u8 == 1u8) by (bit_vector);
    assert((s >> 4u8) & 1u8 == 0u8 || (s >> 4u8) & 1u8 == 1u8) by (bit_vector);
    assert((s >> 3u8) & 1u8 == 0u8 || (s >> 3u8) & 1u8 == 1u8) by (bit_vector);
    assert((s >> 2u8) & 1u8 == 0u8 || (s >> 2u8) & 1u8 == 1u8) by (bit_vector);
    assert((s >> 1u8) & 1u8 == 0u8 || (s >> 1u8) & 1u8 == 1u8) by (bit_vector);
    assert((s >> 0u8) & 1u8 == 0u8 || (s >> 0u8) & 1u8 == 1u8) by (bit_vector);
    assert(s == ((s >> 7u8) & 1u8) * 128u8 + ((s >> 6u8) & 1u8) * 64u8 + ((s >> 5u8) & 1u8) * 32u8 + ((s
        >> 4u8) & 1u8) * 16u8 + ((s >> 3u8) & 1u8) * 8u8 + ((s >> 2u8) & 1u8) * 4u8 + ((s >> 1u8) & 1u8)
        * 2u8 + ((s >> 0u8) & 1u8)) by (bit_vector);
    assert(b[0] == bit_of(s, 7) && b[1] == bit_of(s, 6) && b[2] == bit_of(s, 5) && b[3] == bit_of(s, 4));
    assert(b[4] == bit_of(s, 3) && b[5] == bit_of(s, 2) && b[6] == bit_of(s, 1) && b[7] == bit_of(s, 0));
}

proof fn lemma_decode_at_leaf(t: Tree, i: usize, s: u8, bits: Seq<bool>, k: nat)
    requires
        leaf_of(t, i as int, s as int),
        k > 0,
        inserted_symbol(t, s) is Some,
    ensures
        decoded(t, i, bits, k) == led_by(s, decoded(inserted_symbol(t, s).unwrap(), ROOT, bits, (k - 1) as nat)),
{
    reveal(decoded);
}

proof fn lemma_decode_at_nyt(t: Tree, bits: Seq<bool>, k: nat, s: u8)
    requires
        node_at(t, t.nyt as int) matches Some(Node::NotYetTransmitted { .. }),
        k > 0,
        bits.len() >= 8,
        byte_of(bits.subrange(0, 8)) == s,
        inserted_symbol(t, s) is Some,
    ensures
        decoded(t, t.nyt, bits, k) == led_by(
            s,
            decoded(inserted_symbol(t, s).unwrap(), ROOT, bits.subrange(8, bits.len() as int), (k - 1) as nat),
        ),
{
    reveal(decoded);
}

proof fn lemma_linked_facts(t: Tree, s: u8)
    requires
        linked(t),
    ensures
        node_at(t, t.nyt as int) matches Some(Node::NotYetTransmitted { .. }),
        t.symbols[s as int] is Some ==> leaf_of(t, t.symbols[s as int].unwrap() as int, s as int),
{
    reveal(linked);
}

#[verifier::rlimit(50)]
proof fn lemma_step_seen(
    t: Tree,
    i: usize,
    s: u8,
    more: Seq<bool>,
    n: nat,
    tail: Seq<u8>,
    t3: Tree,
)
    requires
        linked(t),
        n > 0,
        leaf_of(t, i as int, s as int),
        path(t, i, MAX_NODES as nat) is Some,
        inserted_symbol(t, s) is Some,
        decoded(inserted_symbol(t, s).unwrap(), ROOT, more, (n - 1) as nat) == Ok::<(Seq<u8>, Tree), HuffmanError>(
            (tail, t3),
        ),
    ensures
        decoded(t, ROOT, path(t, i, MAX_NODES as nat).unwrap() + more, n) == Ok::<(Seq<u8>, Tree), HuffmanError>(
            (seq![s] + tail, t3),
        ),
{
    lemma_walk(t, i, MAX_NODES as nat, more, n);
    lemma_decode_at_leaf(t, i, s, more, n);
}

#[verifier::rlimit(50)]
proof fn lemma_step_new(t: Tree, s: u8, more: Seq<bool>, n: nat, tail: Seq<u8>, t3: Tree)
    requires
        linked(t),
        n > 0,
        node_at(t, t.nyt as int) matches Some(Node::NotYetTransmitted { .. }),
        path(t, t.nyt, MAX_NODES as nat) is Some,
        inserted_symbol(t, s) is Some,
        decoded(inserted_symbol(t, s).unwrap(), ROOT, more, (n - 1) as nat) == Ok::<(Seq<u8>, Tree), HuffmanError>(
            (tail, t3),
        ),
    ensures
        decoded(t, ROOT, path(t, t.nyt, MAX_NODES as nat).unwrap() + (symbol_bits(s) + more), n) == Ok::<
            (Seq<u8>, Tree),
            HuffmanError,
        >((seq![s] + tail, t3)),
{
    let bits = symbol_bits(s) + more;
    lemma_walk(t, t.nyt, MAX_NODES as nat, bits, n);
    assert(bits.subrange(0, 8) =~= symbol_bits(s));
    assert(bits.subrange(8, bits.len() as int) =~= more);
    lemma_byte_of_symbol_bits(s);
    lemma_decode_at_nyt(t, bits, n, s);
}

/// From any state whose links hold, decoding what encoding sent, whatever
/// follows it, gives back the input and the same state.
#[verifier::rlimit(60)]
proof fn lemma_round_trip_from(t: Tree, b: Seq<u8>, rest: Seq<bool>)
    requires
        linked(t),
        encoded(t, b) is Some,
    ensures
        decoded(t, ROOT, encoded(t, b).unwrap().0 + rest, b.len()) == Ok::<(Seq<u8>, Tree), HuffmanError>(
            (b, encoded(t, b).unwrap().1),
        ),
    decreases b.len(),
{
    reveal(decoded);
    if b.len() == 0 {
        assert(encoded(t, b).unwrap().0 + rest =~= rest);
        assert(b =~= Seq::<u8>::empty());
    } else {
        let s = b[0];
        let c = code_of(t, s).unwrap();
        let t2 = inserted_symbol(t, s).unwrap();
        let (y, t3) = encoded(t2, b.drop_first()).unwrap();
        assert(encoded(t, b).unwrap() == (c + y, t3));
        lemma_inserted_linked(t, s);
        lemma_linked_facts(t, s);
        lemma_round_trip_from(t2, b.drop_first(), rest);
        assert(seq![s] + b.drop_first() =~= b);
        if t.symbols[s as int] is Some {
            let i = t.symbols[s as int].unwrap();
            lemma_step_seen(t, i, s, y + rest, b.len(), b.drop_first(), t3);
            assert(encoded(t, b).unwrap().0 + rest =~= c + (y + rest));
        } else {
            let q = path(t, t.nyt, MAX_NODES as nat).unwrap();
            lemma_step_new(t, s, y + rest, b.len(), b.drop_first(), t3);
            assert(encoded(t, b).unwrap().0 + rest =~= q + (symbol_bits(s) + (y + rest)));
        }
    }
}

/// The bits packed into `bytes` come first in the stream that `bytes` carries;
/// clear bits pad it.
proof fn lemma_unpacked_packs(bytes: Seq<u8>, bits: Seq<bool>)
    requires
        packs(bytes, bits),
    ensures
        unpacked(bytes) == bits + Seq::new((8 * bytes.len() - bits.len()) as nat, |i: int| false),
{
    let pad = Seq::new((8 * bytes.len() - bits.len()) as nat, |i: int| false);
    assert forall|i: int| 0 <= i < 8 * bytes.len() implies #[trigger] unpacked(bytes)[i] == (bits + pad)[i] by {
        assert(lsb0_bit(bytes, i) == (i < bits.len() && bits[i]));
    }
    assert(unpacked(bytes) =~= bits + pad);
}

/// Decoding the bytes that encoding a message produced, with a fresh coder
/// on each side, gives the message back; the two coders end in the same
/// state.
pub proof fn law_decode_of_encode(message: Seq<u8>, packed: Seq<u8>)
    requires
        encoded(initial(), message) is Some,
        packs(packed, encoded(initial(), message).unwrap().0),
    ensures
        decoded(initial(), ROOT, unpacked(packed), message.len()) == Ok::<(Seq<u8>, Tree), HuffmanError>(
            (message, encoded(initial(), message).unwrap().1),
        ),
{
    let bits = encoded(initial(), message).unwrap().0;
    lemma_initial_linked();
    lemma_unpacked_packs(packed, bits);
    lemma_round_trip_from(initial(), message, Seq::new((8 * packed.len() - bits.len()) as nat, |i: int| false));
}

/// Each entry of the symbol table names a leaf of that symbol, and each leaf
/// stands where the table says its symbol is.
pub open spec fn table_agrees(t: Tree) -> bool {
    &&& forall|s: int|
        0 <= s < MAX_SYMBOLS && #[trigger] t.symbols[s] is Some ==> leaf_of(t, t.symbols[s].unwrap() as int, s)
    &&& forall|i: int|
        0 <= i < MAX_NODES && (#[trigger] leaf_symbol(t.nodes[i])) is Some ==> t.symbols[leaf_symbol(
            t.nodes[i],
        ).unwrap() as int] == Some(i as usize)
}

proof fn lemma_encoded_linked(t: Tree, b: Seq<u8>)
    requires
        linked(t),
        encoded(t, b) is Some,
    ensures
        linked(encoded(t, b).unwrap().1),
    decreases b.len(),
{
    if b.len() > 0 {
        let t2 = inserted_symbol(t, b[0]).unwrap();
        lemma_inserted_linked(t, b[0]);
        lemma_encoded_linked(t2, b.drop_first());
    }
}

/// Whatever message a coder has handled, symbol by symbol, its symbol table
/// and its leaves agree.
pub proof fn law_symbol_table(message: Seq<u8>)
    requires
        encoded(initial(), message) is Some,
    ensures
        table_agrees(encoded(initial(), message).unwrap().1),
{
    lemma_initial_linked();
    lemma_encoded_linked(initial(), message);
    reveal(linked);
}

proof fn lemma_decoded_linked(t: Tree, at: usize, bits: Seq<bool>, n: nat)
    requires
        linked(t),
        decoded(t, at, bits, n) is Ok,
    ensures
        linked(decoded(t, at, bits, n).unwrap().1),
    decreases n + bits.len(),
{
    reveal(decoded);
    if n > 0 {
        match node_at(t, at as int) {
            Some(Node::NotYetTransmitted { .. }) => {
                let v = byte_of(bits.subrange(0, 8));
                lemma_inserted_linked(t, v);
                lemma_decoded_linked(
                    inserted_symbol(t, v).unwrap(),
                    ROOT,
                    bits.subrange(8, bits.len() as int),
                    (n - 1) as nat,
                );
            },
            Some(Node::Leaf { symbol, .. }) => {
                lemma_inserted_linked(t, symbol);
                lemma_decoded_linked(inserted_symbol(t, symbol).unwrap(), ROOT, bits, (n - 1) as nat);
            },
            Some(Node::Internal { left, right, .. }) => {
                lemma_decoded_linked(t, if bits[0] { right } else { left }, bits.drop_first(), n);
            },
            None => {},
        }
    }
}

/// Whatever a fresh coder decodes, symbol by symbol, its symbol table and its
/// leaves agree afterwards.
pub proof fn law_symbol_table_after_decode(bits: Seq<u8>, n: nat)
    requires
        decoded(initial(), ROOT, unpacked(bits), n) is Ok,
    ensures
        table_agrees(decoded(initial(), ROOT, unpacked(bits), n).unwrap().1),
{
    lemma_initial_linked();
    lemma_decoded_linked(initial(), ROOT, unpacked(bits), n);
    reveal(linked);
}

} // verus!
