//! A compacted binary prefix trie holding a set of addresses.
//!
//! A missing node holds no address of its range, a node without children
//! holds all of them, and a node with children holds what its children hold.
//! No node has two childless children: such a pair is merged into its parent.
use vstd::prelude::*;
use crate::cidr::{bit_of, has_prefix, lemma_block_determined, Cidr, Protocol, ADDRESS_BITS};

verus! {

/// One position of the trie: branch `zero` and branch `one` follow the next bit.
struct Node<V> {
    /// A value that a leaf may carry; the set operations do not read it.
    value: Option<V>,
    zero: Option<Box<Node<V>>>,
    one: Option<Box<Node<V>>>,
}

/// A node without children: its whole range is held.
spec fn is_full<V>(t: Option<Box<Node<V>>>) -> bool {
    match t {
        Some(n) => n.zero.is_none() && n.one.is_none(),
        None => false,
    }
}

/// `x` is held: a childless node lies on it.
spec fn covers<V>(t: Option<Box<Node<V>>>, x: Seq<bool>) -> bool
    decreases t,
{
    match t {
        None => false,
        Some(n) => {
            if n.zero.is_none() && n.one.is_none() {
                true
            } else if x.len() == 0 {
                false
            } else if x[0] {
                covers(n.one, x.drop_first())
            } else {
                covers(n.zero, x.drop_first())
            }
        },
    }
}

/// How many levels below the top the deepest childless node lies.
spec fn height<V>(t: Option<Box<Node<V>>>) -> nat
    decreases t,
{
    match t {
        None => 0,
        Some(n) => {
            if n.zero.is_none() && n.one.is_none() {
                0
            } else {
                let a = height(n.zero);
                let b = height(n.one);
                1 + if a >= b { a } else { b }
            }
        },
    }
}

/// No node has two childless children.
spec fn canonical<V>(t: Option<Box<Node<V>>>) -> bool
    decreases t,
{
    match t {
        None => true,
        Some(n) => {
            !(is_full(n.zero) && is_full(n.one)) && canonical(n.zero) && canonical(n.one)
        },
    }
}

/// A childless node lies on `p` or above its end.
spec fn full_on_path<V>(t: Option<Box<Node<V>>>, p: Seq<bool>) -> bool
    decreases t,
{
    match t {
        None => false,
        Some(n) => {
            if n.zero.is_none() && n.one.is_none() {
                true
            } else if p.len() == 0 {
                false
            } else if p[0] {
                full_on_path(n.one, p.drop_first())
            } else {
                full_on_path(n.zero, p.drop_first())
            }
        },
    }
}

/// The leading `bits` bits of `mask`, most significant first.
spec fn mask_path(mask: u128, bits: nat) -> Seq<bool> {
    Seq::new(bits, |i: int| bit_of(mask, (127 - i) as u128))
}

proof fn lemma_shl_bit(a: u128, s: u128, j: u128)
    requires
        s < 128,
        j < 128,
        s + j < 128,
    ensures
        bit_of(a << s, (s + j) as u128) == bit_of(a, j),
{
    assert(((a << s) >> ((s + j) as u128)) & 1u128 == (a >> j) & 1u128) by (bit_vector)
        requires
            s < 128,
            j < 128,
            s + j < 128,
    ;
}

proof fn lemma_mask_path_step(mask: u128, bits: nat)
    requires
        1 <= bits <= 128,
    ensures
        mask_path(mask << 1, (bits - 1) as nat) =~= mask_path(mask, bits).drop_first(),
        mask_path(mask, bits)[0] == ((mask >> 127u128) & 1u128 == 1u128),
{
    assert forall|i: int| 0 <= i < bits - 1 implies #[trigger] mask_path(mask << 1, (bits - 1) as nat)[i]
        == mask_path(mask, bits)[i + 1] by {
        lemma_shl_bit(mask, 1, (126 - i) as u128);
    }
}

proof fn lemma_prefix_step(x: Seq<bool>, p: Seq<bool>)
    requires
        x.len() >= 1,
        p.len() >= 1,
    ensures
        has_prefix(x, p) == (x[0] == p[0] && has_prefix(x.drop_first(), p.drop_first())),
{
    if x[0] == p[0] && has_prefix(x.drop_first(), p.drop_first()) {
        assert forall|i: int| 0 <= i < p.len() implies x[i] == p[i] by {
            if i > 0 {
                assert(x.drop_first()[i - 1] == p.drop_first()[i - 1]);
            }
        }
    }
}

impl<V> Node<V> {
    fn full() -> (r: Box<Node<V>>)
        ensures
            r.zero.is_none(),
            r.one.is_none(),
            canonical(Some(r)),
            height(Some(r)) == 0,
    {
        let r = Box::new(Node { value: None, zero: None, one: None });
        assert(canonical(r.zero) && canonical(r.one));
        r
    }

    /// The node has no children.
    pub closed spec fn childless(&self) -> bool {
        self.zero.is_none() && self.one.is_none()
    }

    pub fn is_leaf(&self) -> (r: bool)
        ensures
            r == self.childless(),
    {
        self.zero.is_none() && self.one.is_none()
    }
}

fn is_full_opt<V>(t: &Option<Box<Node<V>>>) -> (r: bool)
    ensures
        r == is_full(*t),
{
    match t {
        Some(n) => n.is_leaf(),
        None => false,
    }
}


/// Adds the block of paths that start with `mask_path(mask, bits)`.
fn add_mask<V>(curr: &mut Option<Box<Node<V>>>, mask: u128, bits: usize)
    requires
        canonical(*old(curr)),
        bits <= 128,
    ensures
        canonical(*final(curr)),
        final(curr).is_some(),
        height(*final(curr)) <= if height(*old(curr)) >= bits as nat { height(*old(curr)) } else { bits as nat },
        forall|x: Seq<bool>|
            x.len() >= height(*old(curr)) && x.len() >= bits ==> #[trigger] covers(*final(curr), x) == (
            covers(*old(curr), x) || has_prefix(x, mask_path(mask, bits as nat))),
    decreases bits,
{
    if is_full_opt(curr) {
        return;
    }
    if bits == 0 {
        *curr = Some(Node::full());
        return;
    }
    let ghost old_t = *curr;
    let ghost p = mask_path(mask, bits as nat);
    proof {
        lemma_mask_path_step(mask, bits as nat);
    }
    let b = (mask >> 127) & 1;
    let mut node = match curr.take() {
        Some(n) => n,
        None => Node::full(),
    };
    let ghost n0 = *node;
    assert(b == 0 || b == 1) by (bit_vector)
        requires
            b == (mask >> 127) & 1,
    ;
    assert(old_t.is_none() ==> n0.zero.is_none() && n0.one.is_none());
    assert(old_t.is_some() ==> old_t.unwrap() == n0 && !is_full(old_t));
    assert(height(old_t) >= height(n0.zero) && height(old_t) >= height(n0.one));
    if b == 0 {
        add_mask(&mut node.zero, mask << 1, bits - 1);
    } else {
        add_mask(&mut node.one, mask << 1, bits - 1);
    }
    let collapse = is_full_opt(&node.zero) && is_full_opt(&node.one);
    if collapse {
        *curr = Some(Node::full());
    } else {
        *curr = Some(node);
    }
    assert forall|x: Seq<bool>| x.len() >= height(old_t) && x.len() >= bits implies #[trigger] covers(
        *curr,
        x,
    ) == (covers(old_t, x) || has_prefix(x, p)) by {
        lemma_prefix_step(x, p);
        let y = x.drop_first();
        if x[0] {
            assert(covers(node.one, y) == (covers(n0.one, y) || (b == 1 && has_prefix(y, p.drop_first()))));
        } else {
            assert(covers(node.zero, y) == (covers(n0.zero, y) || (b == 0 && has_prefix(y, p.drop_first()))));
        }
    }
}

/// Removes the block of paths that start with `mask_path(mask, bits)`, and
/// tells whether a childless node covered that block whole beforehand.
fn sub_mask<V>(curr: &mut Option<Box<Node<V>>>, mask: u128, bits: usize) -> (r: bool)
    requires
        canonical(*old(curr)),
        bits <= 128,
    ensures
        canonical(*final(curr)),
        !is_full(*final(curr)),
        height(*final(curr)) <= if height(*old(curr)) >= bits as nat { height(*old(curr)) } else { bits as nat },
        forall|x: Seq<bool>|
            x.len() >= height(*old(curr)) && x.len() >= bits ==> #[trigger] covers(*final(curr), x) == (
            covers(*old(curr), x) && !has_prefix(x, mask_path(mask, bits as nat))),
        r == full_on_path(*old(curr), mask_path(mask, bits as nat)),
    decreases bits,
{
    let ghost old_t = *curr;
    let ghost p = mask_path(mask, bits as nat);
    if bits == 0 {
        let r = is_full_opt(curr);
        *curr = None;
        return r;
    }
    proof {
        lemma_mask_path_step(mask, bits as nat);
    }
    match curr.take() {
        None => false,
        Some(mut node) => {
            let ghost n0 = *node;
            let b = (mask >> 127) & 1;
            assert(b == 0 || b == 1) by (bit_vector)
                requires
                    b == (mask >> 127) & 1,
            ;
            let split = node.is_leaf();
            if split {
                node.zero = Some(Node::full());
                node.one = Some(Node::full());
            }
            let ghost n1 = *node;
            let r = if b == 0 {
                sub_mask(&mut node.zero, mask << 1, bits - 1)
            } else {
                sub_mask(&mut node.one, mask << 1, bits - 1)
            };
            if !node.is_leaf() {
                *curr = Some(node);
            }
            assert forall|x: Seq<bool>| x.len() >= height(old_t) && x.len() >= bits implies #[trigger] covers(
                *curr,
                x,
            ) == (covers(old_t, x) && !has_prefix(x, p)) by {
                lemma_prefix_step(x, p);
                let y = x.drop_first();
                assert(covers(old_t, x) == if x[0] { covers(n1.one, y) } else { covers(n1.zero, y) });
                if x[0] {
                    assert(covers(node.one, y) == (covers(n1.one, y) && !(b == 1 && has_prefix(y, p.drop_first()))));
                } else {
                    assert(covers(node.zero, y) == (covers(n1.zero, y) && !(b == 0 && has_prefix(y, p.drop_first()))));
                }
            }
            split || r
        },
    }
}

/// The paths of the childless nodes, in order from branch `zero` to branch
/// `one`, each led by `pre`.
spec fn leaves<V>(t: Option<Box<Node<V>>>, pre: Seq<bool>) -> Seq<Seq<bool>>
    decreases t,
{
    match t {
        None => seq![],
        Some(n) => {
            if n.zero.is_none() && n.one.is_none() {
                seq![pre]
            } else {
                leaves(n.zero, pre.push(false)) + leaves(n.one, pre.push(true))
            }
        },
    }
}

proof fn lemma_push_bit(a: u128, c: u128, j: u128)
    requires
        c <= 1,
        j < 127,
    ensures
        bit_of((a << 1u128) | c, (j + 1) as u128) == bit_of(a, j),
        bit_of((a << 1u128) | c, 0) == (c == 1),
{
    assert((((a << 1u128) | c) >> ((j + 1) as u128)) & 1u128 == (a >> j) & 1u128) by (bit_vector)
        requires
            c <= 1,
            j < 127,
    ;
    assert(((((a << 1u128) | c) >> 0u128) & 1u128 == 1u128) == (c == 1)) by (bit_vector)
        requires
            c <= 1,
    ;
}

proof fn lemma_acc_bound(acc: u128, c: u128, d: u128)
    requires
        c <= 1,
        d < 128,
        acc >> d == 0,
    ensures
        acc >> 127u128 == 0,
        (d + 1 < 128) ==> ((acc << 1u128) | c) >> ((d + 1) as u128) == 0,
{
    assert(acc >> 127u128 == 0) by (bit_vector)
        requires
            d < 128,
            acc >> d == 0,
    ;
    assert((d + 1 < 128) ==> ((acc << 1u128) | c) >> ((d + 1) as u128) == 0) by (bit_vector)
        requires
            c <= 1,
            d < 128,
            acc >> d == 0,
    ;
}

proof fn lemma_leaf_address(acc: u128, s: u128, d: u128)
    requires
        0 < d,
        d + s <= 128,
        d < 128 ==> acc >> d == 0,
    ensures
        s < 128 ==> (acc << s) >> s == acc,
{
    assert(s < 128 ==> (acc << s) >> s == acc) by (bit_vector)
        requires
            0 < d,
            d + s <= 128,
            d < 128 ==> acc >> d == 0,
    ;
}

proof fn lemma_shl_low_bits(acc: u128, s: u128, d: u128, k: u128)
    requires
        s < 128,
        d + s <= 128,
        d < 128 ==> acc >> d == 0,
    ensures
        k < s ==> !bit_of(acc << s, k),
        d + s == 32 ==> (acc << s) >> 32u128 == 0,
{
    assert(k < s ==> ((acc << s) >> k) & 1u128 != 1u128) by (bit_vector)
        requires
            s < 128,
    ;
    assert(d + s == 32 ==> (acc << s) >> 32u128 == 0) by (bit_vector)
        requires
            s < 128,
            d + s <= 128,
            d < 128 ==> acc >> d == 0,
    ;
}

proof fn lemma_shr_step(e: u128, t: u128)
    requires
        t < 127,
    ensures
        e >> ((t + 1) as u128) == (e >> t) >> 1u128,
{
    assert(e >> ((t + 1) as u128) == (e >> t) >> 1u128) by (bit_vector)
        requires
            t < 127,
    ;
}

proof fn lemma_shr_order(e: u128, f: u128, t: u128)
    requires
        t < 128,
        e >> t < f >> t,
    ensures
        e < f,
{
    assert(e < f) by (bit_vector)
        requires
            t < 128,
            e >> t < f >> t,
    ;
}

proof fn lemma_half_up(e: u128, acc: u128, c: u128, t: u128)
    requires
        t < 127,
        c <= 1,
        acc >> 127u128 == 0,
        e >> t == (acc << 1u128) | c,
    ensures
        e >> ((t + 1) as u128) == acc,
{
    assert(((acc << 1u128) | c) >> 1u128 == acc) by (bit_vector)
        requires
            c <= 1,
            acc >> 127u128 == 0,
    ;
    lemma_shr_step(e, t);
}

proof fn lemma_halves(e: u128, f: u128, acc: u128, t: u128)
    requires
        t < 128,
        e >> t == acc << 1u128,
        f >> t == (acc << 1u128) | 1u128,
    ensures
        e < f,
{
    assert(acc << 1u128 < (acc << 1u128) | 1u128) by (bit_vector);
    lemma_shr_order(e, f, t);
}

/// Appends to `out` the block of each childless node below `curr`, from the
/// lowest address up. `curr` lies at `depth` on the path whose bits are the
/// low `depth` bits of `acc`.
fn extract<V>(
    protocol: Protocol,
    curr: &Option<Box<Node<V>>>,
    acc: u128,
    depth: usize,
    out: &mut Vec<Cidr>,
    Ghost(path): Ghost<Seq<bool>>,
)
    requires
        path.len() == depth,
        depth + height(*curr) <= protocol.width(),
        forall|i: int| 0 <= i < depth ==> #[trigger] path[i] == bit_of(acc, (depth - 1 - i) as u128),
        depth < 128 ==> acc >> (depth as u128) == 0,
    ensures
        final(out)@.len() == old(out)@.len() + leaves(*curr, path).len(),
        forall|i: int| 0 <= i < old(out)@.len() ==> #[trigger] final(out)@[i] == old(out)@[i],
        forall|i: int|
            old(out)@.len() <= i < final(out)@.len() ==> {
                let c = #[trigger] final(out)@[i];
                &&& c.protocol == protocol
                &&& c.wf()
                &&& c.prefix() == leaves(*curr, path)[i - old(out)@.len()]
                &&& c.aligned()
                &&& (protocol.width() - depth < 128 ==> c.address >> ((protocol.width() - depth) as u128) == acc)
            },
        forall|i: int, j: int|
            old(out)@.len() <= i < j < final(out)@.len() ==> #[trigger] final(out)@[i].address
                < #[trigger] final(out)@[j].address,
    decreases *curr,
{
    let ghost s = protocol.width() - depth;
    match curr {
        None => {},
        Some(n) => {
            if n.is_leaf() {
                let w = protocol.len();
                let address = if depth == 0 {
                    0
                } else {
                    acc << ((w - depth) as u128)
                };
                let c = Cidr { protocol, address, bits: depth };
                proof {
                    if depth == 0 {
                        assert(acc >> 0u128 == 0 ==> acc == 0) by (bit_vector);
                        let z = s as u128;
                        assert(0u128 >> z == 0) by (bit_vector);
                        assert(forall|k: u128| !#[trigger] bit_of(0u128, k)) by (bit_vector);
                        assert(0u128 >> 32u128 == 0) by (bit_vector);
                    } else {
                        lemma_leaf_address(acc, s as u128, depth as u128);
                        assert forall|k: u128| k < s implies !#[trigger] bit_of(c.address, k) by {
                            lemma_shl_low_bits(acc, s as u128, depth as u128, k);
                        }
                        lemma_shl_low_bits(acc, s as u128, depth as u128, 0);
                        assert forall|i: int| 0 <= i < depth implies #[trigger] c.prefix()[i] == path[i] by {
                            lemma_shl_bit(acc, s as u128, (depth - 1 - i) as u128);
                        }
                    }
                    assert(c.prefix() =~= path);
                }
                out.push(c);
            } else {
                let ghost len0 = out@.len();
                let ghost left = path.push(false);
                let ghost right = path.push(true);
                proof {
                    lemma_acc_bound(acc, 0, depth as u128);
                    lemma_acc_bound(acc, 1, depth as u128);
                    assert(acc << 1u128 == (acc << 1u128) | 0u128) by (bit_vector);
                    assert forall|i: int| 0 <= i < depth + 1 implies #[trigger] left[i] == bit_of(
                        acc << 1u128,
                        (depth - i) as u128,
                    ) by {
                        let j: int = if i < depth { depth - 1 - i } else { 0 };
                        lemma_push_bit(acc, 0, j as u128);
                    }
                    assert forall|i: int| 0 <= i < depth + 1 implies #[trigger] right[i] == bit_of(
                        (acc << 1u128) | 1u128,
                        (depth - i) as u128,
                    ) by {
                        let j: int = if i < depth { depth - 1 - i } else { 0 };
                        lemma_push_bit(acc, 1, j as u128);
                    }
                }
                extract(protocol, &n.zero, acc << 1, depth + 1, out, Ghost(left));
                let ghost len1 = out@.len();
                extract(protocol, &n.one, (acc << 1) | 1, depth + 1, out, Ghost(right));
                proof {
                    let l0 = leaves(n.zero, left);
                    let l1 = leaves(n.one, right);
                    assert(leaves(*curr, path) == l0 + l1);
                    assert forall|i: int| len0 <= i < out@.len() implies {
                        let c = #[trigger] out@[i];
                        &&& c.protocol == protocol
                        &&& c.wf()
                        &&& c.prefix() == leaves(*curr, path)[i - len0]
                        &&& c.aligned()
                        &&& (s < 128 ==> c.address >> (s as u128) == acc)
                    } by {
                        let e = out@[i].address;
                        if i < len1 {
                            if s < 128 {
                                lemma_half_up(e, acc, 0, (s - 1) as u128);
                            }
                        } else {
                            if s < 128 {
                                lemma_half_up(e, acc, 1, (s - 1) as u128);
                            }
                        }
                    }
                    assert forall|i: int, j: int| len0 <= i < j < out@.len() implies #[trigger] out@[i].address
                        < #[trigger] out@[j].address by {
                        if i < len1 && j >= len1 {
                            lemma_halves(out@[i].address, out@[j].address, acc, (s - 1) as u128);
                        }
                    }
                }
            }
        },
    }
}

spec fn zeros(n: nat) -> Seq<bool> {
    Seq::new(n, |i: int| false)
}

proof fn lemma_cons_prefix(b: bool, y: Seq<bool>, p: Seq<bool>)
    requires
        p.len() >= 1,
        p[0] == b,
        has_prefix(y, p.drop_first()),
    ensures
        has_prefix(seq![b] + y, p),
        (seq![b] + y).drop_first() == y,
{
    let x = seq![b] + y;
    assert(x.drop_first() =~= y);
    lemma_prefix_step(x, p);
}

/// A path that a non-empty trie holds.
proof fn lemma_held_path<V>(t: Option<Box<Node<V>>>, len: nat) -> (x: Seq<bool>)
    requires
        t.is_some(),
        height(t) <= len,
    ensures
        x.len() == len,
        covers(t, x),
    decreases t,
{
    let n = t.unwrap();
    if n.zero.is_none() && n.one.is_none() {
        zeros(len)
    } else {
        let (b, c) = if n.zero.is_some() { (false, n.zero) } else { (true, n.one) };
        let y = lemma_held_path(c, (len - 1) as nat);
        let x = seq![b] + y;
        assert(x.drop_first() =~= y);
        x
    }
}

/// A path that starts with `p` and is not held, where no childless node lies on `p`.
proof fn lemma_gap<V>(t: Option<Box<Node<V>>>, p: Seq<bool>, len: nat) -> (x: Seq<bool>)
    requires
        canonical(t),
        height(t) <= len,
        p.len() <= len,
        !full_on_path(t, p),
    ensures
        x.len() == len,
        has_prefix(x, p),
        !covers(t, x),
    decreases t,
{
    match t {
        None => {
            let x = p + zeros((len - p.len()) as nat);
            assert(has_prefix(x, p));
            x
        },
        Some(n) => {
            if p.len() == 0 {
                let (b, c) = if !is_full(n.zero) { (false, n.zero) } else { (true, n.one) };
                let y = lemma_gap(c, p, (len - 1) as nat);
                let x = seq![b] + y;
                assert(x.drop_first() =~= y);
                x
            } else {
                let (b, c) = if p[0] { (true, n.one) } else { (false, n.zero) };
                let y = lemma_gap(c, p.drop_first(), (len - 1) as nat);
                lemma_cons_prefix(b, y, p);
                seq![b] + y
            }
        },
    }
}

/// A childless node on `p` holds every path that starts with `p`.
proof fn lemma_full_covers<V>(t: Option<Box<Node<V>>>, p: Seq<bool>, x: Seq<bool>)
    requires
        full_on_path(t, p),
        has_prefix(x, p),
    ensures
        covers(t, x),
    decreases t,
{
    let n = t.unwrap();
    if !(n.zero.is_none() && n.one.is_none()) {
        lemma_prefix_step(x, p);
        if p[0] {
            lemma_full_covers(n.one, p.drop_first(), x.drop_first());
        } else {
            lemma_full_covers(n.zero, p.drop_first(), x.drop_first());
        }
    }
}

/// The path of a block inside the 128-bit space in which the trie works.
proof fn lemma_aligned_path(c: Cidr, mask: u128)
    requires
        c.wf(),
        c.protocol == Protocol::IPv4 ==> mask == c.address << 96u128,
        c.protocol == Protocol::IPv6 ==> mask == c.address,
    ensures
        mask_path(mask, c.bits as nat) == c.prefix(),
{
    if c.protocol == Protocol::IPv4 {
        assert forall|i: int| 0 <= i < c.bits implies #[trigger] mask_path(mask, c.bits as nat)[i]
            == c.prefix()[i] by {
            lemma_shl_bit(c.address, 96, (31 - i) as u128);
        }
    }
    assert(mask_path(mask, c.bits as nat) =~= c.prefix());
}

/// Every leaf path extends `pre`, by at most the trie's height.
proof fn lemma_leaves_extend<V>(t: Option<Box<Node<V>>>, pre: Seq<bool>)
    ensures
        forall|i: int|
            0 <= i < leaves(t, pre).len() ==> has_prefix(#[trigger] leaves(t, pre)[i], pre)
                && leaves(t, pre)[i].len() <= pre.len() + height(t),
    decreases t,
{
    if let Some(n) = t {
        if !(n.zero.is_none() && n.one.is_none()) {
            let left = pre.push(false);
            let right = pre.push(true);
            lemma_leaves_extend(n.zero, left);
            lemma_leaves_extend(n.one, right);
            let l0 = leaves(n.zero, left);
            assert forall|i: int| 0 <= i < leaves(t, pre).len() implies has_prefix(
                #[trigger] leaves(t, pre)[i],
                pre,
            ) && leaves(t, pre)[i].len() <= pre.len() + height(t) by {
                let q = leaves(t, pre)[i];
                if i < l0.len() {
                    assert(has_prefix(q, left));
                    assert forall|k: int| 0 <= k < pre.len() implies q[k] == pre[k] by {
                        assert(left[k] == pre[k]);
                    }
                } else {
                    assert(q == leaves(n.one, right)[i - l0.len()]);
                    assert(has_prefix(q, right));
                    assert forall|k: int| 0 <= k < pre.len() implies q[k] == pre[k] by {
                        assert(right[k] == pre[k]);
                    }
                }
            }
        }
    }
}

/// No leaf path starts with another.
proof fn lemma_leaves_apart<V>(t: Option<Box<Node<V>>>, pre: Seq<bool>)
    ensures
        forall|i: int, j: int|
            0 <= i < leaves(t, pre).len() && 0 <= j < leaves(t, pre).len() && i != j ==> !has_prefix(
                #[trigger] leaves(t, pre)[i],
                #[trigger] leaves(t, pre)[j],
            ),
    decreases t,
{
    if let Some(n) = t {
        if !(n.zero.is_none() && n.one.is_none()) {
            let left = pre.push(false);
            let right = pre.push(true);
            lemma_leaves_extend(n.zero, left);
            lemma_leaves_extend(n.one, right);
            lemma_leaves_apart(n.zero, left);
            lemma_leaves_apart(n.one, right);
            let l0 = leaves(n.zero, left);
            let l1 = leaves(n.one, right);
            let l = leaves(t, pre);
            assert(l == l0 + l1);
            assert forall|i: int, j: int|
                0 <= i < l.len() && 0 <= j < l.len() && i != j implies !has_prefix(
                #[trigger] l[i],
                #[trigger] l[j],
            ) by {
                let k = pre.len() as int;
                if i < l0.len() && j >= l0.len() {
                    assert(has_prefix(l[i], left) && has_prefix(l[j], right));
                    assert(left[k] != right[k]);
                } else if i >= l0.len() && j < l0.len() {
                    assert(has_prefix(l[i], right) && has_prefix(l[j], left));
                    assert(left[k] != right[k]);
                } else if i >= l0.len() {
                    assert(l[i] == l1[i - l0.len()] && l[j] == l1[j - l0.len()]);
                }
            }
        }
    }
}

/// A path that starts with `pre` is held below `pre` exactly when some leaf
/// path starts it.
proof fn lemma_leaves_cover<V>(t: Option<Box<Node<V>>>, pre: Seq<bool>, x: Seq<bool>)
    requires
        has_prefix(x, pre),
        x.len() >= pre.len() + height(t),
    ensures
        covers(t, x.subrange(pre.len() as int, x.len() as int)) == exists|i: int|
            0 <= i < leaves(t, pre).len() && has_prefix(x, #[trigger] leaves(t, pre)[i]),
    decreases t,
{
    let k = pre.len() as int;
    let y = x.subrange(k, x.len() as int);
    let l = leaves(t, pre);
    match t {
        None => {},
        Some(n) => {
            if n.zero.is_none() && n.one.is_none() {
                assert(has_prefix(x, l[0]));
            } else {
                let b = x[k];
                let left = pre.push(false);
                let right = pre.push(true);
                let pb = pre.push(b);
                assert(has_prefix(x, pb)) by {
                    assert forall|m: int| 0 <= m < pb.len() implies x[m] == pb[m] by {
                        if m < k {
                            assert(pb[m] == pre[m]);
                        }
                    }
                }
                assert(y.drop_first() =~= x.subrange(k + 1, x.len() as int));
                assert(y[0] == b);
                lemma_leaves_extend(n.zero, left);
                lemma_leaves_extend(n.one, right);
                let l0 = leaves(n.zero, left);
                let l1 = leaves(n.one, right);
                assert(l == l0 + l1);
                if b {
                    lemma_leaves_cover(n.one, right, x);
                    if covers(t, y) {
                        let i = choose|i: int| 0 <= i < l1.len() && has_prefix(x, #[trigger] l1[i]);
                        assert(l[l0.len() + i] == l1[i]);
                    }
                    if exists|i: int| 0 <= i < l.len() && has_prefix(x, #[trigger] l[i]) {
                        let i = choose|i: int| 0 <= i < l.len() && has_prefix(x, #[trigger] l[i]);
                        if i < l0.len() {
                            assert(has_prefix(l[i], left));
                            assert(l[i][k] == x[k]);
                            assert(false);
                        } else {
                            assert(l1[i - l0.len()] == l[i]);
                        }
                    }
                } else {
                    lemma_leaves_cover(n.zero, left, x);
                    if covers(t, y) {
                        let i = choose|i: int| 0 <= i < l0.len() && has_prefix(x, #[trigger] l0[i]);
                        assert(l[i] == l0[i]);
                    }
                    if exists|i: int| 0 <= i < l.len() && has_prefix(x, #[trigger] l[i]) {
                        let i = choose|i: int| 0 <= i < l.len() && has_prefix(x, #[trigger] l[i]);
                        if i >= l0.len() {
                            assert(l1[i - l0.len()] == l[i]);
                            assert(has_prefix(l[i], right));
                            assert(l[i][k] == x[k]);
                            assert(false);
                        } else {
                            assert(l0[i] == l[i]);
                        }
                    }
                }
            }
        },
    }
}

/// Next to each leaf below the top, its parent's range holds a path that the
/// trie does not hold.
proof fn lemma_leaf_parent_gap<V>(t: Option<Box<Node<V>>>, pre: Seq<bool>, i: int, len: nat) -> (x: Seq<bool>)
    requires
        canonical(t),
        pre.len() + height(t) <= len,
        0 <= i < leaves(t, pre).len(),
        leaves(t, pre)[i].len() > pre.len(),
    ensures
        x.len() == len,
        has_prefix(x, leaves(t, pre)[i].drop_last()),
        !covers(t, x.subrange(pre.len() as int, len as int)),
    decreases t,
{
    let n = t.unwrap();
    let k = pre.len() as int;
    let left = pre.push(false);
    let right = pre.push(true);
    lemma_leaves_extend(n.zero, left);
    lemma_leaves_extend(n.one, right);
    let l0 = leaves(n.zero, left);
    let l1 = leaves(n.one, right);
    assert(leaves(t, pre) == l0 + l1);
    let q = leaves(t, pre)[i];
    let (b, c, pb, j) = if i < l0.len() { (false, n.zero, left, i) } else { (true, n.one, right, i - l0.len()) };
    let (other, ob) = if b { (n.zero, false) } else { (n.one, true) };
    assert(q == leaves(c, pb)[j]);
    assert(has_prefix(q, pb));
    if q.len() > k + 1 {
        let x = lemma_leaf_parent_gap(c, pb, j, len);
        let y = x.subrange(k, len as int);
        assert(y.drop_first() =~= x.subrange(k + 1, len as int));
        assert(q.drop_last()[k] == b);
        assert(y[0] == x[k]);
        x
    } else {
        assert(q =~= pb);
        assert(c.is_some() && c.unwrap().zero.is_none() && c.unwrap().one.is_none()) by {
            if !(c.is_some() && c.unwrap().zero.is_none() && c.unwrap().one.is_none()) {
                assert(c.is_some());
                let m = c.unwrap();
                lemma_leaves_extend(m.zero, pb.push(false));
                lemma_leaves_extend(m.one, pb.push(true));
                let m0 = leaves(m.zero, pb.push(false));
                if j < m0.len() {
                    assert(has_prefix(m0[j], pb.push(false)));
                } else {
                    assert(leaves(c, pb)[j] == leaves(m.one, pb.push(true))[j - m0.len()]);
                    assert(has_prefix(leaves(c, pb)[j], pb.push(true)));
                }
            }
        }
        let y = lemma_gap(other, Seq::empty(), (len - k - 1) as nat);
        let x = pre + seq![ob] + y;
        let z = x.subrange(k, len as int);
        assert(z.drop_first() =~= y);
        assert(z[0] == ob);
        assert(q.drop_last() =~= pre);
        assert(has_prefix(x, pre));
        x
    }
}

/// Two compacted tries that hold the same paths have the same leaves.
proof fn lemma_same_paths_same_leaves<V>(
    t1: Option<Box<Node<V>>>,
    t2: Option<Box<Node<V>>>,
    len: nat,
    pre: Seq<bool>,
)
    requires
        canonical(t1),
        canonical(t2),
        height(t1) <= len,
        height(t2) <= len,
        forall|x: Seq<bool>| x.len() == len ==> #[trigger] covers(t1, x) == covers(t2, x),
    ensures
        leaves(t1, pre) == leaves(t2, pre),
    decreases t1,
{
    if t1.is_none() != t2.is_none() {
        let t = if t1.is_some() { t1 } else { t2 };
        let x = lemma_held_path(t, len);
        assert(covers(t1, x) == covers(t2, x));
    } else if t1.is_some() {
        let (n1, n2) = (t1.unwrap(), t2.unwrap());
        let f1 = n1.zero.is_none() && n1.one.is_none();
        let f2 = n2.zero.is_none() && n2.one.is_none();
        if f1 != f2 {
            let t = if f1 { t2 } else { t1 };
            let x = lemma_gap(t, Seq::empty(), len);
            assert(covers(t1, x) == covers(t2, x));
        } else if !f1 {
            assert(len >= 1);
            let m = (len - 1) as nat;
            assert forall|y: Seq<bool>| y.len() == m implies #[trigger] covers(n1.zero, y) == covers(n2.zero, y) by {
                let x = seq![false] + y;
                assert(x.drop_first() =~= y);
                assert(covers(t1, x) == covers(t2, x));
            }
            assert forall|y: Seq<bool>| y.len() == m implies #[trigger] covers(n1.one, y) == covers(n2.one, y) by {
                let x = seq![true] + y;
                assert(x.drop_first() =~= y);
                assert(covers(t1, x) == covers(t2, x));
            }
            lemma_same_paths_same_leaves(n1.zero, n2.zero, m, pre.push(false));
            lemma_same_paths_same_leaves(n1.one, n2.one, m, pre.push(true));
        }
    }
}

/// A set of addresses of one family, kept as the fewest CIDR blocks that
/// cover it.
pub struct IpTree<V> {
    root: Option<Box<Node<V>>>,
}

impl<V> View for IpTree<V> {
    type V = Set<Seq<bool>>;

    /// The addresses held, each as its 128 bits, most significant first.
    closed spec fn view(&self) -> Set<Seq<bool>> {
        Set::new(|x: Seq<bool>| x.len() == ADDRESS_BITS && covers(self.root, x))
    }
}

impl<V> IpTree<V> {
    /// The trie is in its compacted form.
    pub closed spec fn wf(self) -> bool {
        canonical(self.root) && height(self.root) <= ADDRESS_BITS
    }

    /// The prefixes of the blocks of the cover, from the lowest address up.
    pub closed spec fn cover(self) -> Seq<Seq<bool>> {
        leaves(self.root, Seq::empty())
    }

    /// `r` lists the blocks of the cover in family `protocol`, each with the
    /// bits below its prefix cleared.
    pub open spec fn lists_cover(self, protocol: Protocol, r: Seq<Cidr>) -> bool {
        &&& r.len() == self.cover().len()
        &&& forall|i: int|
            0 <= i < r.len() ==> {
                let c = #[trigger] r[i];
                &&& c.protocol == protocol
                &&& c.wf()
                &&& c.aligned()
                &&& c.prefix() == self.cover()[i]
            }
    }

    /// No block of the cover is longer than this.
    pub closed spec fn depth(self) -> nat {
        height(self.root)
    }

    /// An empty set.
    pub fn new() -> (r: IpTree<V>)
        ensures
            r.wf(),
            r@ == Set::<Seq<bool>>::empty(),
            r.cover() == Seq::<Seq<bool>>::empty(),
            r.depth() == 0,
    {
        let r = IpTree { root: None };
        assert(r@ =~= Set::<Seq<bool>>::empty());
        assert(r.cover() =~= Seq::<Seq<bool>>::empty());
        r
    }

    pub fn is_empty(&self) -> (r: bool)
        requires
            self.wf(),
        ensures
            r == (self@ == Set::<Seq<bool>>::empty()),
    {
        proof {
            if self.root.is_some() {
                let x = lemma_held_path(self.root, ADDRESS_BITS as nat);
                assert(self@.contains(x));
            } else {
                assert(self@ =~= Set::<Seq<bool>>::empty());
            }
        }
        self.root.is_none()
    }

    /// Adds the addresses of `cidr`.
    pub fn add(&mut self, cidr: &Cidr)
        requires
            old(self).wf(),
            cidr.wf(),
        ensures
            final(self).wf(),
            final(self)@ == old(self)@.union(cidr.block()),
            final(self).depth() <= if old(self).depth() >= cidr.bits as nat { old(self).depth() } else { cidr.bits as nat },
    {
        let mask = match cidr.protocol {
            Protocol::IPv4 => cidr.address << 96,
            Protocol::IPv6 => cidr.address,
        };
        proof {
            lemma_aligned_path(*cidr, mask);
        }
        add_mask(&mut self.root, mask, cidr.bits);
        assert(self@ =~= old(self)@.union(cidr.block()));
    }

    /// Removes the addresses of `cidr`, and tells whether all of them were held.
    pub fn sub(&mut self, cidr: &Cidr) -> (r: bool)
        requires
            old(self).wf(),
            cidr.wf(),
        ensures
            final(self).wf(),
            final(self)@ == old(self)@.difference(cidr.block()),
            r == cidr.block().subset_of(old(self)@),
            final(self).depth() <= if old(self).depth() >= cidr.bits as nat { old(self).depth() } else { cidr.bits as nat },
    {
        let mask = match cidr.protocol {
            Protocol::IPv4 => cidr.address << 96,
            Protocol::IPv6 => cidr.address,
        };
        proof {
            lemma_aligned_path(*cidr, mask);
        }
        let ghost old_root = self.root;
        let r = sub_mask(&mut self.root, mask, cidr.bits);
        assert(self@ =~= old(self)@.difference(cidr.block()));
        proof {
            if r {
                assert forall|x: Seq<bool>| cidr.block().contains(x) implies old(self)@.contains(x) by {
                    lemma_full_covers(old_root, cidr.prefix(), x);
                }
            } else {
                let x = lemma_gap(old_root, cidr.prefix(), ADDRESS_BITS as nat);
                assert(cidr.block().contains(x) && !old(self)@.contains(x));
            }
        }
        r
    }

    /// The fewest blocks of `protocol` that cover the set, from the lowest
    /// address up.
    fn extract(&self, protocol: Protocol) -> (r: Vec<Cidr>)
        requires
            self.wf(),
            self.depth() <= protocol.width(),
        ensures
            self.lists_cover(protocol, r@),
            forall|i: int| 0 <= i < r@.len() ==> (#[trigger] r@[i]).protocol == protocol && r@[i].wf(),
            forall|i: int, j: int|
                0 <= i < j < r@.len() ==> #[trigger] r@[i].address < #[trigger] r@[j].address,
            forall|x: Seq<bool>|
                #[trigger] self@.contains(x) == exists|i: int|
                    0 <= i < r@.len() && (#[trigger] r@[i].block()).contains(x),
            forall|i: int, j: int|
                0 <= i < r@.len() && 0 <= j < r@.len() && i != j ==> (#[trigger] r@[i].block()).disjoint(
                    #[trigger] r@[j].block(),
                ),
            forall|i: int|
                0 <= i < r@.len() && r@[i].bits > 0 ==> !(#[trigger] r@[i].widened()).block().subset_of(self@),
    {
        let mut acc = Vec::<Cidr>::new();
        let ghost empty = Seq::<bool>::empty();
        proof {
            assert(0u128 >> 0u128 == 0) by (bit_vector);
        }
        extract(protocol, &self.root, 0, 0, &mut acc, Ghost(empty));
        let ghost l = leaves(self.root, empty);
        proof {
            lemma_leaves_apart(self.root, empty);
            assert forall|x: Seq<bool>| #[trigger] self@.contains(x) == exists|i: int|
                0 <= i < acc@.len() && (#[trigger] acc@[i].block()).contains(x) by {
                if x.len() == ADDRESS_BITS {
                    lemma_leaves_cover(self.root, empty, x);
                    assert(x.subrange(0, x.len() as int) =~= x);
                    if self@.contains(x) {
                        let i = choose|i: int| 0 <= i < l.len() && has_prefix(x, #[trigger] l[i]);
                        assert(acc@[i].block().contains(x));
                    }
                    if exists|i: int| 0 <= i < acc@.len() && (#[trigger] acc@[i].block()).contains(x) {
                        let i = choose|i: int| 0 <= i < acc@.len() && (#[trigger] acc@[i].block()).contains(x);
                        assert(has_prefix(x, l[i]));
                    }
                }
            }
            assert forall|i: int, j: int|
                0 <= i < acc@.len() && 0 <= j < acc@.len() && i != j implies (#[trigger] acc@[i].block()).disjoint(
                #[trigger] acc@[j].block(),
            ) by {
                if exists|x: Seq<bool>| acc@[i].block().contains(x) && acc@[j].block().contains(x) {
                    let x = choose|x: Seq<bool>| acc@[i].block().contains(x) && acc@[j].block().contains(x);
                    let (a, b) = (l[i], l[j]);
                    if a.len() <= b.len() {
                        assert(has_prefix(b, a)) by {
                            assert forall|m: int| 0 <= m < a.len() implies b[m] == a[m] by {
                                assert(x[m] == a[m] && x[m] == b[m]);
                            }
                        }
                        assert(!has_prefix(l[j], l[i]));
                    } else {
                        assert(has_prefix(a, b)) by {
                            assert forall|m: int| 0 <= m < b.len() implies a[m] == b[m] by {
                                assert(x[m] == a[m] && x[m] == b[m]);
                            }
                        }
                        assert(!has_prefix(l[i], l[j]));
                    }
                }
            }
            assert forall|i: int| 0 <= i < acc@.len() && acc@[i].bits > 0 implies !(
            #[trigger] acc@[i].widened()).block().subset_of(self@) by {
                lemma_leaves_extend(self.root, empty);
                let x = lemma_leaf_parent_gap(self.root, empty, i, ADDRESS_BITS as nat);
                assert(x.subrange(0, ADDRESS_BITS as int) =~= x);
                assert(acc@[i].widened().prefix() =~= l[i].drop_last());
                assert(acc@[i].widened().block().contains(x));
            }
        }
        acc
    }

    /// The cover of an IPv4 set.
    pub fn extract4(&self) -> (r: Vec<Cidr>)
        requires
            self.wf(),
            self.depth() <= Protocol::IPv4.width(),
        ensures
            self.lists_cover(Protocol::IPv4, r@),
            forall|i: int| 0 <= i < r@.len() ==> (#[trigger] r@[i]).protocol == Protocol::IPv4 && r@[i].wf(),
            forall|i: int, j: int|
                0 <= i < j < r@.len() ==> #[trigger] r@[i].address < #[trigger] r@[j].address,
            forall|x: Seq<bool>|
                #[trigger] self@.contains(x) == exists|i: int|
                    0 <= i < r@.len() && (#[trigger] r@[i].block()).contains(x),
            forall|i: int, j: int|
                0 <= i < r@.len() && 0 <= j < r@.len() && i != j ==> (#[trigger] r@[i].block()).disjoint(
                    #[trigger] r@[j].block(),
                ),
            forall|i: int|
                0 <= i < r@.len() && r@[i].bits > 0 ==> !(#[trigger] r@[i].widened()).block().subset_of(self@),
    {
        self.extract(Protocol::IPv4)
    }

    /// The cover of an IPv6 set.
    pub fn extract6(&self) -> (r: Vec<Cidr>)
        requires
            self.wf(),
        ensures
            self.lists_cover(Protocol::IPv6, r@),
            forall|i: int| 0 <= i < r@.len() ==> (#[trigger] r@[i]).protocol == Protocol::IPv6 && r@[i].wf(),
            forall|i: int, j: int|
                0 <= i < j < r@.len() ==> #[trigger] r@[i].address < #[trigger] r@[j].address,
            forall|x: Seq<bool>|
                #[trigger] self@.contains(x) == exists|i: int|
                    0 <= i < r@.len() && (#[trigger] r@[i].block()).contains(x),
            forall|i: int, j: int|
                0 <= i < r@.len() && 0 <= j < r@.len() && i != j ==> (#[trigger] r@[i].block()).disjoint(
                    #[trigger] r@[j].block(),
                ),
            forall|i: int|
                0 <= i < r@.len() && r@[i].bits > 0 ==> !(#[trigger] r@[i].widened()).block().subset_of(self@),
    {
        self.extract(Protocol::IPv6)
    }
}

/// Two compacted tries that hold the same addresses have the same cover.
pub proof fn lemma_cover_determined<V>(a: IpTree<V>, b: IpTree<V>)
    requires
        a.wf(),
        b.wf(),
        a@ == b@,
    ensures
        a.cover() == b.cover(),
{
    assert forall|x: Seq<bool>| x.len() == ADDRESS_BITS implies #[trigger] covers(a.root, x) == covers(b.root, x) by {
        assert(a@.contains(x) == covers(a.root, x));
        assert(b@.contains(x) == covers(b.root, x));
    }
    lemma_same_paths_same_leaves(a.root, b.root, ADDRESS_BITS as nat, Seq::empty());
}

/// Adding a block a second time changes neither the set nor what extraction
/// returns.
pub proof fn lemma_add_idempotent<V>(
    before: IpTree<V>,
    once: IpTree<V>,
    twice: IpTree<V>,
    cidr: Cidr,
    protocol: Protocol,
    r_once: Seq<Cidr>,
    r_twice: Seq<Cidr>,
)
    requires
        once.wf(),
        twice.wf(),
        once@ == before@.union(cidr.block()),
        twice@ == once@.union(cidr.block()),
        once.lists_cover(protocol, r_once),
        twice.lists_cover(protocol, r_twice),
    ensures
        twice@ == once@,
        r_twice == r_once,
{
    assert(twice@ =~= once@);
    lemma_cover_determined(twice, once);
    assert forall|i: int| 0 <= i < r_once.len() implies r_twice[i] == r_once[i] by {
        lemma_block_determined(r_twice[i], r_once[i]);
    }
    assert(r_twice =~= r_once);
}

} // verus!
