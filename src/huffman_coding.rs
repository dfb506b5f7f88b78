//! Huffman coding of text: a code tree built from character counts, and
//! encoding and decoding along it ('0' for left, '1' for right).

use vstd::prelude::*;
use vstd::std_specs::iter::IteratorSpec;
use vstd::string::{axiom_spec_iter, next_postcondition, StringExecFns};
use crate::text::{push_char, push_repeat, repeat};

verus! {

/// A code tree: an inner node with two subtrees, or a leaf with a character.
pub enum Node {
    Tree(Box<Node>, Box<Node>),
    Leaf(char),
}

/// The characters at the leaves, left to right.
pub open spec fn leaves(n: Node) -> Seq<char>
    decreases n,
{
    match n {
        Node::Leaf(c) => seq![c],
        Node::Tree(l, r) => leaves(*l) + leaves(*r),
    }
}

/// The number of edges on the longest path from `n` to a leaf.
pub open spec fn depth_of(n: Node) -> nat
    decreases n,
{
    match n {
        Node::Leaf(_) => 0,
        Node::Tree(l, r) => 1 + if depth_of(*l) >= depth_of(*r) {
            depth_of(*l)
        } else {
            depth_of(*r)
        },
    }
}

/// The path to the leftmost leaf holding `c`, as '0' and '1' steps.
pub open spec fn code_of(n: Node, c: char) -> Option<Seq<char>>
    decreases n,
{
    match n {
        Node::Leaf(t) => if t == c {
            Some(Seq::empty())
        } else {
            None
        },
        Node::Tree(l, r) => match code_of(*l, c) {
            Some(p) => Some(seq!['0'] + p),
            None => match code_of(*r, c) {
                Some(p) => Some(seq!['1'] + p),
                None => None,
            },
        },
    }
}

/// The codes of the characters of `s`, one after the other.
pub open spec fn encoding(n: Node, s: Seq<char>) -> Seq<char>
    decreases s.len(),
{
    if s.len() == 0 {
        Seq::empty()
    } else {
        encoding(n, s.drop_last()) + code_of(n, s.last()).unwrap()
    }
}

pub open spec fn prepend(out: Seq<char>, rest: Option<Seq<char>>) -> Option<Seq<char>> {
    match rest {
        Some(o) => Some(out + o),
        None => None,
    }
}

/// Decoding `bits` from node `cur` of the tree `root`: each bit steps to a
/// child; reaching a leaf emits its character and returns to the root. `None`
/// where a bit is neither '0' nor '1' or a step starts from a leaf.
pub open spec fn walk(root: Node, cur: Node, bits: Seq<char>) -> Option<Seq<char>>
    decreases bits.len(),
{
    if bits.len() == 0 {
        Some(Seq::empty())
    } else {
        match cur {
            Node::Leaf(_) => None,
            Node::Tree(l, r) => {
                if bits[0] != '0' && bits[0] != '1' {
                    None
                } else {
                    let next = if bits[0] == '0' {
                        *l
                    } else {
                        *r
                    };
                    match next {
                        Node::Leaf(t) => prepend(seq![t], walk(root, root, bits.drop_first())),
                        Node::Tree(_, _) => walk(root, next, bits.drop_first()),
                    }
                }
            },
        }
    }
}

/// The drawing of `n`, left subtree first: one line per node, indented by
/// a dot per level, starting with the direction that leads to it, and
/// ending with the leaf's character or '*' for an inner node.
pub open spec fn drawing(n: Node, depth: nat, direction: char) -> Seq<char>
    decreases n,
{
    match n {
        Node::Tree(l, r) => drawing(*l, depth + 1, '╱') + repeat('.', depth) + seq![direction, '*', '\n']
            + drawing(*r, depth + 1, '╲'),
        Node::Leaf(t) => repeat('.', depth) + seq![direction, t, '\n'],
    }
}

/// The characters of `s`.
pub fn chars_of(s: &str) -> (r: Vec<char>)
    ensures
        r@ == s@,
{
    broadcast use axiom_spec_iter, next_postcondition;

    let mut it = s.chars();
    let mut r: Vec<char> = Vec::new();
    loop
        invariant
            r@ + it.remaining() == s@,
            it.decrease() is Some,
        ensures
            r@ == s@,
        decreases it.decrease()->0,
    {
        match it.next() {
            Some(c) => {
                r.push(c);
            },
            None => {
                assert(r@ =~= s@);
                break;
            },
        }
    }
    r
}

impl Node {
    /// Appends the drawing of the tree, its root at `depth` and reached by
    /// `direction`, to `writer`.
    pub fn print(&self, depth: usize, direction: char, writer: String) -> (r: String)
        requires
            depth + depth_of(*self) <= usize::MAX,
        ensures
            r@ == writer@ + drawing(*self, depth as nat, direction),
        decreases *self,
    {
        let ghost w0 = writer@;
        let mut writer = writer;
        match self {
            Node::Tree(left, right) => {
                writer = left.print(depth + 1, '╱', writer);
                push_repeat(&mut writer, '.', depth);
                push_char(&mut writer, direction);
                push_char(&mut writer, '*');
                push_char(&mut writer, '\n');
                let writer = right.print(depth + 1, '╲', writer);
                assert(writer@ =~= w0 + drawing(*self, depth as nat, direction));
                writer
            },
            Node::Leaf(token) => {
                push_repeat(&mut writer, '.', depth);
                push_char(&mut writer, direction);
                push_char(&mut writer, *token);
                push_char(&mut writer, '\n');
                assert(writer@ =~= w0 + drawing(*self, depth as nat, direction));
                writer
            },
        }
    }

    /// The code of `token` as pieces: `depth` empty pieces, then one piece
    /// per step, "0" or "1". `None` if no leaf holds `token`.
    pub fn encode_token(&self, token: char, depth: usize) -> (r: Option<Vec<&'static str>>)
        requires
            depth + depth_of(*self) <= usize::MAX,
        ensures
            r.is_some() == code_of(*self, token).is_some(),
            r.is_some() ==> {
                let code = code_of(*self, token).unwrap();
                &&& r.unwrap()@.len() == depth + code.len()
                &&& forall|i: int| 0 <= i < depth ==> (#[trigger] r.unwrap()@[i])@ == Seq::<char>::empty()
                &&& forall|i: int|
                    depth <= i < r.unwrap()@.len() ==> (#[trigger] r.unwrap()@[i])@ == seq![code[i - depth]]
            },
        decreases *self,
    {
        proof {
            reveal_strlit("");
            reveal_strlit("0");
            reveal_strlit("1");
        }
        match self {
            Node::Tree(left, right) => {
                if let Some(mut buffer) = left.encode_token(token, depth + 1) {
                    buffer.set(depth, "0");
                    Some(buffer)
                } else if let Some(mut buffer) = right.encode_token(token, depth + 1) {
                    buffer.set(depth, "1");
                    Some(buffer)
                } else {
                    None
                }
            },
            Node::Leaf(node_token) => {
                if token == *node_token {
                    Some(vec![""; depth])
                } else {
                    None
                }
            },
        }
    }

    /// The codes of the characters of `input`, one after the other; every
    /// character of `input` must be at a leaf.
    pub fn encode(&self, input: &str) -> (r: String)
        requires
            depth_of(*self) <= usize::MAX,
            forall|i: int| 0 <= i < input@.len() ==> code_of(*self, #[trigger] input@[i]).is_some(),
        ensures
            r@ == encoding(*self, input@),
    {
        proof {
            reveal_strlit("");
            reveal_strlit("0");
            reveal_strlit("1");
        }
        let chars = chars_of(input);
        let mut output = String::new();
        let mut i: usize = 0;
        while i < chars.len()
            invariant
                chars@ == input@,
                i <= chars@.len(),
                depth_of(*self) <= usize::MAX,
                forall|j: int| 0 <= j < input@.len() ==> code_of(*self, #[trigger] input@[j]).is_some(),
                output@ == encoding(*self, chars@.take(i as int)),
            decreases chars@.len() - i,
        {
            let token = chars[i];
            assert(code_of(*self, input@[i as int]).is_some());
            let pieces = self.encode_token(token, 0).unwrap();
            let ghost code = code_of(*self, token).unwrap();
            let ghost before = output@;
            let mut k: usize = 0;
            while k < pieces.len()
                invariant
                    pieces@.len() == code.len(),
                    forall|j: int| 0 <= j < pieces@.len() ==> (#[trigger] pieces@[j])@ == seq![code[j]],
                    k <= pieces@.len(),
                    output@ == before + code.take(k as int),
                decreases pieces@.len() - k,
            {
                output.append(pieces[k]);
                assert(code.take(k + 1) =~= code.take(k as int).push(code[k as int]));
                k = k + 1;
            }
            proof {
                assert(code.take(k as int) =~= code);
                let t = chars@.take(i + 1);
                assert(t.drop_last() =~= chars@.take(i as int));
                assert(t.last() == token);
            }
            i = i + 1;
        }
        assert(chars@.take(i as int) =~= input@);
        output
    }

    /// Decodes `input` by walking the tree from the root; the walk must not
    /// meet a bit other than '0' or '1', nor step from a leaf.
    pub fn decode(&self, input: &str) -> (r: String)
        requires
            walk(*self, *self, input@).is_some(),
        ensures
            r@ == walk(*self, *self, input@).unwrap(),
    {
        let bits = chars_of(input);
        let mut output = String::new();
        let mut current_node = self;
        let mut i: usize = 0;
        assert(bits@.skip(0) =~= bits@);
        assert(output@ + walk(*self, *self, input@).unwrap() =~= walk(*self, *self, input@).unwrap());
        while i < bits.len()
            invariant
                bits@ == input@,
                i <= bits@.len(),
                walk(*self, *self, input@).is_some(),
                walk(*self, *self, input@) == prepend(
                    output@,
                    walk(*self, *current_node, bits@.skip(i as int)),
                ),
            decreases bits@.len() - i,
        {
            let direction_bit = bits[i];
            let ghost rest = bits@.skip(i as int);
            let ghost cur = *current_node;
            assert(rest[0] == direction_bit);
            assert(rest.drop_first() =~= bits@.skip(i + 1));
            assert(walk(*self, cur, rest).is_some());
            assert(cur is Tree);
            assert(direction_bit == '0' || direction_bit == '1');
            let next: &Node = match current_node {
                Node::Tree(left, right) => {
                    if direction_bit == '0' {
                        left
                    } else {
                        right
                    }
                },
                Node::Leaf(_) => {
                    current_node
                },
            };
            current_node = next;
            proof {
                let nx = *next;
                assert(nx == if direction_bit == '0' {
                    *cur->Tree_0
                } else {
                    *cur->Tree_1
                });
                if nx is Tree {
                    assert(walk(*self, cur, rest) == walk(*self, nx, rest.drop_first()));
                } else {
                    assert(walk(*self, cur, rest) == prepend(
                        seq![nx->Leaf_0],
                        walk(*self, *self, rest.drop_first()),
                    ));
                }
            }
            if let Node::Leaf(token) = current_node {
                let ghost o = output@;
                push_char(&mut output, *token);
                assert(output@ == o + seq![*token]);
                current_node = self;
                proof {
                    let w = walk(*self, *self, bits@.skip(i + 1));
                    if w.is_some() {
                        assert(o + (seq![*token] + w.unwrap()) =~= output@ + w.unwrap());
                    }
                    assert(prepend(o, prepend(seq![*token], w)) == prepend(output@, w));
                }
            }
            i = i + 1;
        }
        assert(bits@.skip(i as int).len() == 0);
        assert(output@ + Seq::<char>::empty() =~= output@);
        output
    }
}

/// The counts after one more occurrence of `x`: the entry for `x` goes up by
/// one, or a new entry `(x, 1)` goes before the first larger character.
pub open spec fn add_count(cs: Seq<(char, u32)>, x: char) -> Seq<(char, u32)>
    decreases cs.len(),
{
    if cs.len() == 0 {
        seq![(x, 1u32)]
    } else if cs[0].0 == x {
        seq![(x, (cs[0].1 + 1) as u32)] + cs.drop_first()
    } else if (cs[0].0 as int) > (x as int) {
        seq![(x, 1u32)] + cs
    } else {
        seq![cs[0]] + add_count(cs.drop_first(), x)
    }
}

/// The distinct characters of `s` in increasing order, each with the number
/// of times it occurs.
pub open spec fn char_counts(s: Seq<char>) -> Seq<(char, u32)>
    decreases s.len(),
{
    if s.len() == 0 {
        Seq::empty()
    } else {
        add_count(char_counts(s.drop_last()), s.last())
    }
}

/// One leaf per counted character, with its count.
pub open spec fn leaf_list(cs: Seq<(char, u32)>) -> Seq<(Node, u32)>
    decreases cs.len(),
{
    if cs.len() == 0 {
        Seq::empty()
    } else {
        leaf_list(cs.drop_last()).push((Node::Leaf(cs.last().0), cs.last().1))
    }
}

/// `s` with entries `i` and `j` exchanged.
pub open spec fn swap_at(s: Seq<(Node, u32)>, i: int, j: int) -> Seq<(Node, u32)> {
    s.update(i, s[j]).update(j, s[i])
}

/// One comparison step at `i`: a count of entry `i` below that of entry
/// `bl` exchanges them; then a count of `bl` below that of `last` exchanges
/// those.
pub open spec fn sort_step(s: Seq<(Node, u32)>, i: int, bl: int, last: int) -> Seq<(Node, u32)> {
    let s1 = if s[i].1 < s[bl].1 {
        swap_at(s, i, bl)
    } else {
        s
    };
    if s1[bl].1 < s1[last].1 {
        swap_at(s1, bl, last)
    } else {
        s1
    }
}

/// The comparison steps at `0..k`.
pub open spec fn sort_pass(s: Seq<(Node, u32)>, k: int, bl: int, last: int) -> Seq<(Node, u32)>
    decreases k,
{
    if k <= 0 {
        s
    } else {
        sort_step(sort_pass(s, k - 1, bl, last), k - 1, bl, last)
    }
}

/// The last two entries replaced by a tree of them (the last one on the
/// left), with the sum of their counts.
pub open spec fn merge_two(s: Seq<(Node, u32)>) -> Seq<(Node, u32)> {
    let n = s.len() as int;
    s.take(n - 2).push(
        (Node::Tree(Box::new(s[n - 1].0), Box::new(s[n - 2].0)), (s[n - 1].1 + s[n - 2].1) as u32),
    )
}

/// `m - 1` rounds of a pass then a merge, while more than one entry is left.
pub open spec fn rounds(s: Seq<(Node, u32)>, m: nat) -> Seq<(Node, u32)>
    decreases m,
{
    if m <= 1 || s.len() <= 1 {
        s
    } else {
        let last = s.len() - 1;
        rounds(merge_two(sort_pass(s, last - 1, last - 1, last)), (m - 1) as nat)
    }
}

/// The code tree that `build_tree` makes for `s`.
pub open spec fn huffman_tree(s: Seq<char>) -> Node {
    let cs = char_counts(s);
    rounds(leaf_list(cs), cs.len())[0].0
}

/// Where the first character not below `x` sits in strictly increasing
/// counts, `add_count` updates or inserts there.
proof fn lemma_add_count_at(cs: Seq<(char, u32)>, x: char, j: int)
    requires
        0 <= j <= cs.len(),
        forall|a: int, b: int| 0 <= a < b < cs.len() ==> code_point((#[trigger] cs[a]).0) < code_point((#[trigger] cs[b]).0),
        forall|a: int| 0 <= a < j ==> code_point((#[trigger] cs[a]).0) < code_point(x),
        j < cs.len() ==> code_point(cs[j].0) >= code_point(x),
    ensures
        add_count(cs, x) == if j < cs.len() && cs[j].0 == x {
            cs.update(j, (x, (cs[j].1 + 1) as u32))
        } else {
            cs.insert(j, (x, 1u32))
        },
    decreases j,
{
    if j > 0 {
        let t = cs.drop_first();
        assert(code_point(cs[0].0) < code_point(x));
        assert forall|a: int, b: int| 0 <= a < b < t.len() implies code_point((#[trigger] t[a]).0) < code_point((#[trigger] t[b]).0) by {
            assert(t[a] == cs[a + 1] && t[b] == cs[b + 1]);
        }
        assert forall|a: int| 0 <= a < j - 1 implies code_point((#[trigger] t[a]).0) < code_point(x) by {
            assert(t[a] == cs[a + 1]);
        }
        if j < cs.len() {
            assert(t[j - 1] == cs[j]);
        }
        lemma_add_count_at(t, x, j - 1);
        if j < cs.len() && cs[j].0 == x {
            assert(seq![cs[0]] + t.update(j - 1, (x, (cs[j].1 + 1) as u32)) =~= cs.update(j, (x, (cs[j].1 + 1) as u32)));
        } else {
            assert(seq![cs[0]] + t.insert(j - 1, (x, 1u32)) =~= cs.insert(j, (x, 1u32)));
        }
    } else {
        if cs.len() == 0 {
            assert(cs.insert(0, (x, 1u32)) =~= seq![(x, 1u32)]);
        } else if cs[0].0 == x {
            assert(seq![(x, (cs[0].1 + 1) as u32)] + cs.drop_first() =~= cs.update(0, (x, (cs[0].1 + 1) as u32)));
        } else {
            assert(code_point(cs[0].0) > code_point(x));
            assert(seq![(x, 1u32)] + cs =~= cs.insert(0, (x, 1u32)));
        }
    }
}

/// A node of the tree under construction, with its total count.
struct Score {
    node: Node,
    score: u32,
}

/// The sum of the counts in `s`.
pub open spec fn count_total(s: Seq<(char, u32)>) -> nat
    decreases s.len(),
{
    if s.len() == 0 {
        0
    } else {
        count_total(s.drop_last()) + s.last().1 as nat
    }
}

/// The sum of the scores in `s`.
spec fn score_total(s: Seq<Score>) -> nat
    decreases s.len(),
{
    if s.len() == 0 {
        0
    } else {
        score_total(s.drop_last()) + s.last().score as nat
    }
}

/// The number of leaves over the trees in `s`.
spec fn leaf_total(s: Seq<Score>) -> nat
    decreases s.len(),
{
    if s.len() == 0 {
        0
    } else {
        leaf_total(s.drop_last()) + leaves(s.last().node).len()
    }
}

proof fn lemma_count_update(s: Seq<(char, u32)>, i: int, x: (char, u32))
    requires
        0 <= i < s.len(),
    ensures
        count_total(s.update(i, x)) == count_total(s) - s[i].1 + x.1,
    decreases s.len(),
{
    let t = s.update(i, x);
    if i < s.len() - 1 {
        assert(t.drop_last() =~= s.drop_last().update(i, x));
        lemma_count_update(s.drop_last(), i, x);
    } else {
        assert(t.drop_last() =~= s.drop_last());
    }
}

proof fn lemma_score_update(s: Seq<Score>, i: int, x: Score)
    requires
        0 <= i < s.len(),
    ensures
        score_total(s.update(i, x)) == score_total(s) - s[i].score + x.score,
        leaf_total(s.update(i, x)) == leaf_total(s) - leaves(s[i].node).len() + leaves(x.node).len(),
        score_total(s) >= s[i].score,
    decreases s.len(),
{
    let t = s.update(i, x);
    if i < s.len() - 1 {
        assert(t.drop_last() =~= s.drop_last().update(i, x));
        lemma_score_update(s.drop_last(), i, x);
    } else {
        assert(t.drop_last() =~= s.drop_last());
    }
}

proof fn lemma_score_bound(s: Seq<Score>, i: int, j: int)
    requires
        0 <= i < s.len(),
        0 <= j < s.len(),
        i != j,
    ensures
        s[i].score + s[j].score <= score_total(s),
    decreases s.len(),
{
    let last = s.len() - 1;
    let u = s.drop_last();
    if i == last {
        lemma_score_update(u, j, u[j]);
    } else if j == last {
        lemma_score_update(u, i, u[i]);
    } else {
        lemma_score_bound(u, i, j);
    }
}

/// A leaf's character has a code.
pub proof fn lemma_leaf_has_code(n: Node, c: char)
    requires
        leaves(n).contains(c),
    ensures
        code_of(n, c).is_some(),
    decreases n,
{
    match n {
        Node::Leaf(t) => {
            assert(leaves(n)[0] == t);
        },
        Node::Tree(l, r) => {
            let j = choose|j: int| 0 <= j < leaves(n).len() && leaves(n)[j] == c;
            if j < leaves(*l).len() {
                assert(leaves(*l)[j] == c);
                lemma_leaf_has_code(*l, c);
            } else {
                assert(leaves(*r)[j - leaves(*l).len()] == c);
                lemma_leaf_has_code(*r, c);
            }
        },
    }
}

/// Walking a character's code from an inner node emits that character and
/// returns to the root.
pub proof fn lemma_walk_code(root: Node, n: Node, c: char, rest: Seq<char>)
    requires
        n is Tree,
        code_of(n, c).is_some(),
    ensures
        walk(root, n, code_of(n, c).unwrap() + rest) == prepend(seq![c], walk(root, root, rest)),
    decreases n,
{
    if let Node::Tree(l, r) = n {
        let (bit, child) = if code_of(*l, c).is_some() {
            ('0', *l)
        } else {
            ('1', *r)
        };
        let p = code_of(child, c).unwrap();
        let bits = code_of(n, c).unwrap() + rest;
        assert(code_of(n, c).unwrap() == seq![bit] + p);
        assert(bits[0] == bit);
        assert(bits.drop_first() =~= p + rest);
        match child {
            Node::Leaf(t) => {
                assert(p =~= Seq::<char>::empty());
                assert(p + rest =~= rest);
            },
            Node::Tree(_, _) => {
                lemma_walk_code(root, child, c, rest);
            },
        }
    }
}

/// The encoding of a concatenation is the concatenation of the encodings.
pub proof fn lemma_encoding_append(n: Node, a: Seq<char>, b: Seq<char>)
    ensures
        encoding(n, a + b) == encoding(n, a) + encoding(n, b),
    decreases b.len(),
{
    if b.len() == 0 {
        assert(a + b =~= a);
        assert(encoding(n, a) + encoding(n, b) =~= encoding(n, a));
    } else {
        assert((a + b).drop_last() =~= a + b.drop_last());
        lemma_encoding_append(n, a, b.drop_last());
        assert(encoding(n, a) + encoding(n, b.drop_last()) + code_of(n, b.last()).unwrap()
            =~= encoding(n, a) + (encoding(n, b.drop_last()) + code_of(n, b.last()).unwrap()));
    }
}

/// Decoding undoes encoding: for a tree whose root is an inner node, walking
/// the encoding of a text whose characters all have codes gives back the
/// text.
pub proof fn lemma_decode_encode(t: Node, s: Seq<char>)
    requires
        t is Tree,
        forall|i: int| 0 <= i < s.len() ==> code_of(t, #[trigger] s[i]).is_some(),
    ensures
        walk(t, t, encoding(t, s)) == Some(s),
    decreases s.len(),
{
    if s.len() == 0 {
        assert(encoding(t, s) =~= Seq::<char>::empty());
    } else {
        let rest = s.drop_first();
        assert(s =~= seq![s[0]] + rest);
        lemma_encoding_append(t, seq![s[0]], rest);
        assert(seq![s[0]].drop_last() =~= Seq::<char>::empty());
        assert(encoding(t, seq![s[0]].drop_last()) == Seq::<char>::empty());
        assert(seq![s[0]].last() == s[0]);
        assert(encoding(t, seq![s[0]]) =~= code_of(t, s[0]).unwrap());
        lemma_walk_code(t, t, s[0], encoding(t, rest));
        assert forall|i: int| 0 <= i < rest.len() implies code_of(t, #[trigger] rest[i]).is_some() by {
            assert(rest[i] == s[i + 1]);
        }
        lemma_decode_encode(t, rest);
    }
}

/// Whether `a` is a prefix of `b`.
pub open spec fn is_prefix(a: Seq<char>, b: Seq<char>) -> bool {
    a.len() <= b.len() && b.subrange(0, a.len() as int) == a
}

/// Codes are prefix-free: the code of one character held at a leaf is never
/// a prefix of the code of another (so distinct characters get distinct
/// codes).
pub proof fn lemma_codes_prefix_free(t: Node, c1: char, c2: char)
    requires
        c1 != c2,
        code_of(t, c1).is_some(),
        code_of(t, c2).is_some(),
    ensures
        !is_prefix(code_of(t, c1).unwrap(), code_of(t, c2).unwrap()),
    decreases t,
{
    if let Node::Tree(l, r) = t {
        let p1 = code_of(t, c1).unwrap();
        let p2 = code_of(t, c2).unwrap();
        let in_l1 = code_of(*l, c1).is_some();
        let in_l2 = code_of(*l, c2).is_some();
        if p1.len() <= p2.len() {
            if in_l1 == in_l2 {
                let child = if in_l1 {
                    *l
                } else {
                    *r
                };
                lemma_codes_prefix_free(child, c1, c2);
                let q1 = code_of(child, c1).unwrap();
                let q2 = code_of(child, c2).unwrap();
                assert(p1 == seq![p1[0]] + q1);
                assert(p2 == seq![p1[0]] + q2);
                if is_prefix(p1, p2) {
                    assert(q2.subrange(0, q1.len() as int) =~= p2.subrange(0, p1.len() as int).drop_first());
                    assert(p1.drop_first() =~= q1);
                }
            } else {
                assert(p1[0] != p2[0]);
                if is_prefix(p1, p2) {
                    assert(p2.subrange(0, p1.len() as int)[0] == p2[0]);
                }
            }
        }
    }
}

/// A tree is shallower than it has leaves.
pub proof fn lemma_depth_below_leaves(n: Node)
    ensures
        depth_of(n) < leaves(n).len(),
    decreases n,
{
    if let Node::Tree(l, r) = n {
        lemma_depth_below_leaves(*l);
        lemma_depth_below_leaves(*r);
    }
}

/// One leaf per counted character, with its count, in the same order.
fn leaf_scores(counts: &Vec<(char, u32)>) -> (r: Vec<Score>)
    requires
        forall|a: int, b: int| 0 <= a < b < counts@.len() ==> code_point((#[trigger] counts@[a]).0) < code_point((#[trigger] counts@[b]).0),
    ensures
        forall|c: char| #[trigger] char_total(r@, c) == if has_key(counts@, c) {
            1nat
        } else {
            0nat
        },
        r@.len() == counts@.len(),
        score_total(r@) == count_total(counts@),
        leaf_total(r@) == counts@.len(),
        forall|m: int| 0 <= m < r@.len() ==> #[trigger] r@[m].node == Node::Leaf(counts@[m].0),
        pairs(r@) == leaf_list(counts@),
{
    let mut scores_list: Vec<Score> = Vec::new();
    let mut k: usize = 0;
    while k < counts.len()
        invariant
            k <= counts@.len(),
            scores_list@.len() == k,
            score_total(scores_list@) == count_total(counts@.take(k as int)),
            leaf_total(scores_list@) == k,
            forall|m: int| 0 <= m < k ==> #[trigger] scores_list@[m].node == Node::Leaf(counts@[m].0),
            pairs(scores_list@) == leaf_list(counts@.take(k as int)),
            forall|a: int, b: int| 0 <= a < b < counts@.len() ==> code_point((#[trigger] counts@[a]).0) < code_point((#[trigger] counts@[b]).0),
            forall|c: char| #[trigger] char_total(scores_list@, c) == if has_key(counts@.take(k as int), c) {
                1nat
            } else {
                0nat
            },
        decreases counts@.len() - k,
    {
        let token = copy_char(&counts[k].0);
        let score = counts[k].1;
        let ghost before = scores_list@;
        scores_list.push(Score { node: Node::Leaf(token), score });
        proof {
            assert(scores_list@.drop_last() =~= before);
            assert(counts@.take(k + 1).drop_last() =~= counts@.take(k as int));
            assert(counts@.take(k + 1).last() == counts@[k as int]);
            assert(pairs(scores_list@) =~= pairs(before).push((Node::Leaf(token), score)));
            assert(leaves(Node::Leaf(token)) == seq![token]);
            assert(seq![token].drop_last() =~= Seq::<char>::empty());
            assert forall|c: char| #[trigger] char_total(scores_list@, c) == if has_key(counts@.take(k + 1), c) {
                1nat
            } else {
                0nat
            } by {
                assert(occ(seq![token].drop_last(), c) == 0);
                assert(seq![token].last() == token);
                assert(occ(seq![token], c) == if token == c { 1nat } else { 0nat });
                assert(scores_list@.last().node == Node::Leaf(token));
                assert(char_total(scores_list@, c) == char_total(before, c) + occ(seq![token], c));
                let t0 = counts@.take(k as int);
                let t1 = counts@.take(k + 1);
                if has_key(t1, c) {
                    let w = choose|w: int| 0 <= w < t1.len() && #[trigger] t1[w].0 == c;
                    if w < k {
                        assert(t0[w] == t1[w]);
                    }
                }
                if has_key(t0, c) {
                    let w = choose|w: int| 0 <= w < t0.len() && #[trigger] t0[w].0 == c;
                    assert(t1[w] == t0[w]);
                    assert(code_point(counts@[w].0) < code_point(counts@[k as int].0));
                }
                if token == c {
                    assert(t1[k as int].0 == c);
                }
            }
        }
        k = k + 1;
    }
    assert(counts@.take(k as int) =~= counts@);
    scores_list
}

/// A copy of the character behind `c`.
fn copy_char(c: &char) -> (r: char)
    ensures
        r == *c,
{
    *c
}

/// The scalar value of a character.
spec fn code_point(c: char) -> int {
    c as int
}

/// Whether `c` is a key of `s`.
spec fn has_key(s: Seq<(char, u32)>, c: char) -> bool {
    exists|k: int| 0 <= k < s.len() && #[trigger] s[k].0 == c
}

/// Whether some element of `s` is a tree with `c` at a leaf.
spec fn holds_char(s: Seq<Score>, c: char) -> bool {
    exists|k: int| 0 <= k < s.len() && leaves(#[trigger] s[k].node).contains(c)
}

fn swap_scores(v: &mut Vec<Score>, i: usize, j: usize)
    requires
        i < old(v)@.len(),
        j < old(v)@.len(),
        i != j,
    ensures
        final(v)@ == old(v)@.update(i as int, old(v)@[j as int]).update(j as int, old(v)@[i as int]),
{
    let ghost s = v@;
    let mut tmp = Score { node: Node::Leaf(' '), score: 0 };
    std::mem::swap(&mut v[i], &mut tmp);
    assert(tmp == s[i as int]);
    std::mem::swap(&mut v[j], &mut tmp);
    assert(tmp == s[j as int]);
    std::mem::swap(&mut v[i], &mut tmp);
    assert(v@ =~= s.update(i as int, s[j as int]).update(j as int, s[i as int]));
}

/// Counts of the distinct characters of `chars`, in increasing order.
#[verifier::rlimit(80)]
fn count_chars(chars: &Vec<char>) -> (r: Vec<(char, u32)>)
    requires
        chars@.len() <= u32::MAX,
    ensures
        r@ == char_counts(chars@),
        forall|a: int, b: int| 0 <= a < b < r@.len() ==> code_point((#[trigger] r@[a]).0) < code_point((#[trigger] r@[b]).0),
        forall|k: int| 0 <= k < r@.len() ==> chars@.contains(#[trigger] r@[k].0),
        count_total(r@) == chars@.len(),
        r@.len() <= chars@.len(),
        forall|j: int| 0 <= j < chars@.len() ==> has_key(r@, #[trigger] chars@[j]),
{
    let mut counts: Vec<(char, u32)> = Vec::new();
    let mut i: usize = 0;
    while i < chars.len()
        invariant
            chars@.len() <= u32::MAX,
            i <= chars@.len(),
            counts@.len() <= i,
            count_total(counts@) == i,
            counts@ == char_counts(chars@.take(i as int)),
            forall|k: int| 0 <= k < counts@.len() ==> chars@.take(i as int).contains(#[trigger] counts@[k].0),
            forall|k: int| 0 <= k < counts@.len() ==> (#[trigger] counts@[k]).1 as nat <= i,
            forall|a: int, b: int| 0 <= a < b < counts@.len() ==> code_point((#[trigger] counts@[a]).0) < code_point((#[trigger] counts@[b]).0),
            forall|j: int| 0 <= j < i ==> has_key(counts@, #[trigger] chars@[j]),
        decreases chars@.len() - i,
    {
        let c = chars[i];
        let mut j: usize = 0;
        while j < counts.len() && counts[j].0 < c
            invariant
                j <= counts@.len(),
                forall|a: int| 0 <= a < j ==> code_point((#[trigger] counts@[a]).0) < code_point(c),
            decreases counts@.len() - j,
        {
            j = j + 1;
        }
        let ghost before = counts@;
        proof {
            lemma_add_count_at(before, c, j as int);
            assert(chars@.take(i + 1).drop_last() =~= chars@.take(i as int));
        }
        if j < counts.len() && counts[j].0 == c {
            let n = counts[j].1;
            proof {
                lemma_count_update(before, j as int, (c, (n + 1) as u32));
            }
            counts.set(j, (c, n + 1));
            assert(counts@ == before.update(j as int, (c, (n + 1) as u32)));
            assert forall|k: int| 0 <= k < counts@.len() implies chars@.take(i + 1).contains(#[trigger] counts@[k].0) by {
                assert(counts@[k].0 == before[k].0);
                let w = choose|w: int| 0 <= w < i && chars@.take(i as int)[w] == before[k].0;
                assert(chars@.take(i + 1)[w] == before[k].0);
            }
            assert forall|jj: int| 0 <= jj < i + 1 implies has_key(counts@, #[trigger] chars@[jj]) by {
                if jj < i {
                    let k = choose|k: int| 0 <= k < before.len() && #[trigger] before[k].0 == chars@[jj];
                    assert(counts@[k].0 == chars@[jj]);
                } else {
                    assert(counts@[j as int].0 == chars@[jj]);
                }
            }
        } else {
            counts.insert(j, (c, 1));
            proof {
                assert(counts@ =~= before.take(j as int).push((c, 1u32)) + before.skip(j as int));
                lemma_count_insert(before, j as int, (c, 1u32));
                assert forall|k: int| 0 <= k < counts@.len() implies chars@.take(i + 1).contains(#[trigger] counts@[k].0) by {
                    if k == j {
                        assert(chars@.take(i + 1)[i as int] == c);
                    } else {
                        let k0 = if k < j { k } else { k - 1 };
                        assert(counts@[k] == before[k0]);
                        let w = choose|w: int| 0 <= w < i && chars@.take(i as int)[w] == before[k0].0;
                        assert(chars@.take(i + 1)[w] == before[k0].0);
                    }
                }
            }
            assert forall|a: int, b: int| 0 <= a < b < counts@.len() implies code_point((#[trigger] counts@[a]).0) < code_point((#[trigger] counts@[b]).0) by {
                if b < j {
                } else if b == j {
                } else if a < j {
                    assert(counts@[b] == before[b - 1]);
                    if j < before.len() {
                        assert(code_point(before[j as int].0) >= code_point(c));
                        assert(before[j as int].0 != c);
                    }
                    if b - 1 > j {
                        assert(code_point(before[j as int].0) < code_point(before[b - 1].0));
                    }
                } else if a == j {
                    assert(counts@[b] == before[b - 1]);
                    assert(code_point(before[j as int].0) >= code_point(c));
                    assert(before[j as int].0 != c);
                    if b - 1 > j {
                        assert(code_point(before[j as int].0) < code_point(before[b - 1].0));
                    }
                } else {
                    assert(counts@[a] == before[a - 1]);
                    assert(counts@[b] == before[b - 1]);
                }
            }
            assert forall|jj: int| 0 <= jj < i + 1 implies has_key(counts@, #[trigger] chars@[jj]) by {
                if jj < i {
                    let k = choose|k: int| 0 <= k < before.len() && #[trigger] before[k].0 == chars@[jj];
                    if k < j {
                        assert(counts@[k].0 == chars@[jj]);
                    } else {
                        assert(counts@[k + 1].0 == chars@[jj]);
                    }
                } else {
                    assert(counts@[j as int].0 == chars@[jj]);
                }
            }
        }
        i = i + 1;
    }
    assert(chars@.take(i as int) =~= chars@);
    counts
}

proof fn lemma_count_insert(s: Seq<(char, u32)>, j: int, x: (char, u32))
    requires
        0 <= j <= s.len(),
    ensures
        count_total(s.take(j).push(x) + s.skip(j)) == count_total(s) + x.1,
    decreases s.len() - j,
{
    if j == s.len() {
        assert(s.take(j).push(x) + s.skip(j) =~= s.push(x));
        assert(s.push(x).drop_last() =~= s);
    } else {
        let t = s.take(j).push(x) + s.skip(j);
        let u = s.drop_last();
        assert(t.drop_last() =~= u.take(j).push(x) + u.skip(j));
        assert(t.last() == s.last());
        lemma_count_insert(u, j, x);
    }
}

impl Node {
    /// Builds the code tree for the characters of a non-empty `input`: the
    /// distinct characters with their counts, in increasing order, start as
    /// leaves; then, repeatedly, the two nodes with the lowest counts are
    /// brought to the end of the list and replaced by a tree of the two.
    pub fn build_tree(input: &str) -> (r: Node)
        requires
            input@.len() > 0,
            input@.len() <= u32::MAX,
        ensures
            r == huffman_tree(input@),
            forall|c: char| #[trigger] occ(leaves(r), c) == if input@.contains(c) {
                1nat
            } else {
                0nat
            },
            forall|i: int| 0 <= i < input@.len() ==> code_of(r, #[trigger] input@[i]).is_some(),
            forall|c1: char, c2: char|
                c1 != c2 && input@.contains(c1) && input@.contains(c2) ==> !is_prefix(
                    #[trigger] code_of(r, c1).unwrap(),
                    #[trigger] code_of(r, c2).unwrap(),
                ),
            depth_of(r) < input@.len(),
    {
        let chars = chars_of(input);
        let counts = count_chars(&chars);
        let mut scores_list = leaf_scores(&counts);
        let ghost target = rounds(leaf_list(counts@), counts@.len());
        proof {
            assert forall|c: char| #[trigger] char_total(scores_list@, c) == if input@.contains(c) {
                1nat
            } else {
                0nat
            } by {
                if input@.contains(c) {
                    let j = choose|j: int| 0 <= j < input@.len() && input@[j] == c;
                    assert(has_key(counts@, chars@[j]));
                }
                if has_key(counts@, c) {
                    let k = choose|k: int| 0 <= k < counts@.len() && #[trigger] counts@[k].0 == c;
                    assert(chars@.contains(counts@[k].0));
                }
            }
            assert forall|j: int| 0 <= j < chars@.len() implies holds_char(scores_list@, #[trigger] chars@[j]) by {
                let m = choose|m: int| 0 <= m < counts@.len() && #[trigger] counts@[m].0 == chars@[j];
                assert(leaves(scores_list@[m].node)[0] == chars@[j]);
            }
        }
        let mut last = scores_list.len() - 1;
        while last > 0
            invariant
                chars@ == input@,
                chars@.len() <= u32::MAX,
                scores_list@.len() == last + 1,
                score_total(scores_list@) == chars@.len(),
                leaf_total(scores_list@) <= chars@.len(),
                forall|j: int| 0 <= j < chars@.len() ==> holds_char(scores_list@, #[trigger] chars@[j]),
                rounds(pairs(scores_list@), (last + 1) as nat) == target,
                forall|c: char| #[trigger] char_total(scores_list@, c) == if input@.contains(c) {
                    1nat
                } else {
                    0nat
                },
            decreases last,
        {
            let beforelast = last - 1;
            let ghost p0 = pairs(scores_list@);
            let mut i: usize = 0;
            while i < beforelast
                invariant
                    beforelast == last - 1,
                    last > 0,
                    scores_list@.len() == last + 1,
                    i <= beforelast,
                    score_total(scores_list@) == chars@.len(),
                    leaf_total(scores_list@) <= chars@.len(),
                    forall|j: int| 0 <= j < chars@.len() ==> holds_char(scores_list@, #[trigger] chars@[j]),
                    p0.len() == last + 1,
                    pairs(scores_list@) == sort_pass(p0, i as int, beforelast as int, last as int),
                    forall|c: char| #[trigger] char_total(scores_list@, c) == if input@.contains(c) {
                        1nat
                    } else {
                        0nat
                    },
                decreases beforelast - i,
            {
                let ghost q = pairs(scores_list@);
                if scores_list[i].score < scores_list[beforelast].score {
                    proof { lemma_swap_keeps(scores_list@, i as int, beforelast as int, chars@); }
                    let ghost v = scores_list@;
                    swap_scores(&mut scores_list, i, beforelast);
                    assert(pairs(scores_list@) =~= swap_at(pairs(v), i as int, beforelast as int));
                }
                let ghost q1 = pairs(scores_list@);
                assert(q1 == if q[i as int].1 < q[beforelast as int].1 {
                    swap_at(q, i as int, beforelast as int)
                } else {
                    q
                });
                if scores_list[beforelast].score < scores_list[last].score {
                    proof { lemma_swap_keeps(scores_list@, beforelast as int, last as int, chars@); }
                    let ghost v = scores_list@;
                    swap_scores(&mut scores_list, beforelast, last);
                    assert(pairs(scores_list@) =~= swap_at(pairs(v), beforelast as int, last as int));
                }
                assert(pairs(scores_list@) == sort_step(q, i as int, beforelast as int, last as int));
                i = i + 1;
            }
            let ghost s0 = scores_list@;
            proof {
                lemma_score_bound(s0, last as int, beforelast as int);
            }
            let left_node = scores_list.pop().unwrap();
            let right_node = scores_list.pop().unwrap();
            let new_score = left_node.score + right_node.score;
            let new_node = Node::Tree(Box::new(left_node.node), Box::new(right_node.node));
            let ghost s2 = scores_list@;
            let ghost ln = left_node.node;
            let ghost rn = right_node.node;
            scores_list.push(Score { node: new_node, score: new_score });
            proof {
                assert(s0.drop_last().drop_last() =~= s2);
                assert(scores_list@.drop_last() =~= s2);
                assert(score_total(s0) == score_total(s0.drop_last()) + s0[last as int].score);
                assert(score_total(s0.drop_last()) == score_total(s2) + s0[last - 1].score);
                assert(leaf_total(s0) == leaf_total(s0.drop_last()) + leaves(s0[last as int].node).len());
                assert(leaf_total(s0.drop_last()) == leaf_total(s2) + leaves(s0[last - 1].node).len());
                assert(leaves(Node::Tree(Box::new(ln), Box::new(rn))) == leaves(ln) + leaves(rn));
                assert(pairs(scores_list@) =~= merge_two(pairs(s0)));
                assert forall|c: char| #[trigger] char_total(scores_list@, c) == if input@.contains(c) {
                    1nat
                } else {
                    0nat
                } by {
                    lemma_occ_concat(leaves(ln), leaves(rn), c);
                    assert(char_total(s0, c) == char_total(s0.drop_last(), c) + occ(leaves(s0[last as int].node), c));
                    assert(char_total(s0.drop_last(), c) == char_total(s2, c) + occ(leaves(s0[last - 1].node), c));
                }
                assert(rounds(p0, (last + 1) as nat) == rounds(
                    merge_two(sort_pass(p0, last - 1, last - 1, last as int)),
                    last as nat,
                ));
                assert forall|j: int| 0 <= j < chars@.len() implies holds_char(scores_list@, #[trigger] chars@[j]) by {
                    let c = chars@[j];
                    let m = choose|m: int| 0 <= m < s0.len() && leaves(#[trigger] s0[m].node).contains(c);
                    let t = scores_list@[last - 1].node;
                    if m == last {
                        let q = choose|q: int| 0 <= q < leaves(s0[m].node).len() && leaves(s0[m].node)[q] == c;
                        assert(leaves(t)[q] == c);
                    } else if m == last - 1 {
                        let q = choose|q: int| 0 <= q < leaves(s0[m].node).len() && leaves(s0[m].node)[q] == c;
                        assert(leaves(t)[leaves(s0[last as int].node).len() + q] == c);
                    } else {
                        assert(scores_list@[m] == s0[m]);
                    }
                }
            }
            last = last - 1;
        }
        let ghost s = scores_list@;
        proof {
            assert(s.drop_last() =~= Seq::<Score>::empty());
            assert(target == pairs(s));
            assert forall|c: char| #[trigger] occ(leaves(s[0].node), c) == if input@.contains(c) {
                1nat
            } else {
                0nat
            } by {
                assert(char_total(s, c) == char_total(s.drop_last(), c) + occ(leaves(s[0].node), c));
            }
        }
        let result = scores_list.pop().unwrap().node;
        proof {
            assert forall|i: int| 0 <= i < input@.len() implies code_of(result, #[trigger] input@[i]).is_some() by {
                assert(holds_char(s, chars@[i]));
                let m = choose|m: int| 0 <= m < s.len() && leaves(#[trigger] s[m].node).contains(chars@[i]);
                lemma_leaf_has_code(result, chars@[i]);
            }
            lemma_depth_below_leaves(result);
            assert forall|c1: char, c2: char|
                c1 != c2 && input@.contains(c1) && input@.contains(c2) implies !is_prefix(
                    #[trigger] code_of(result, c1).unwrap(),
                    #[trigger] code_of(result, c2).unwrap(),
                ) by {
                let i1 = choose|i: int| 0 <= i < input@.len() && input@[i] == c1;
                let i2 = choose|i: int| 0 <= i < input@.len() && input@[i] == c2;
                assert(code_of(result, input@[i1]).is_some());
                assert(code_of(result, input@[i2]).is_some());
                lemma_codes_prefix_free(result, c1, c2);
            }
        }
        result
    }
}

/// The number of times `c` occurs in `s`.
pub open spec fn occ(s: Seq<char>, c: char) -> nat
    decreases s.len(),
{
    if s.len() == 0 {
        0
    } else {
        occ(s.drop_last(), c) + if s.last() == c {
            1nat
        } else {
            0nat
        }
    }
}

pub proof fn lemma_occ_concat(a: Seq<char>, b: Seq<char>, c: char)
    ensures
        occ(a + b, c) == occ(a, c) + occ(b, c),
    decreases b.len(),
{
    if b.len() == 0 {
        assert(a + b =~= a);
    } else {
        assert((a + b).drop_last() =~= a + b.drop_last());
        lemma_occ_concat(a, b.drop_last(), c);
    }
}

/// The occurrences of `c` at the leaves of the trees in `s`.
spec fn char_total(s: Seq<Score>, c: char) -> nat
    decreases s.len(),
{
    if s.len() == 0 {
        0
    } else {
        char_total(s.drop_last(), c) + occ(leaves(s.last().node), c)
    }
}

proof fn lemma_char_update(s: Seq<Score>, i: int, x: Score, c: char)
    requires
        0 <= i < s.len(),
    ensures
        char_total(s.update(i, x), c) == char_total(s, c) - occ(leaves(s[i].node), c) + occ(
            leaves(x.node),
            c,
        ),
        char_total(s, c) >= occ(leaves(s[i].node), c),
    decreases s.len(),
{
    let t = s.update(i, x);
    if i < s.len() - 1 {
        assert(t.drop_last() =~= s.drop_last().update(i, x));
        lemma_char_update(s.drop_last(), i, x, c);
    } else {
        assert(t.drop_last() =~= s.drop_last());
    }
}

/// The entries as (tree, count) pairs.
spec fn pairs(v: Seq<Score>) -> Seq<(Node, u32)> {
    Seq::new(v.len(), |k: int| (v[k].node, v[k].score))
}

/// Exchanging two entries keeps the sums and the characters held.
proof fn lemma_swap_keeps(s: Seq<Score>, i: int, j: int, chars: Seq<char>)
    requires
        0 <= i < s.len(),
        0 <= j < s.len(),
        forall|q: int| 0 <= q < chars.len() ==> holds_char(s, #[trigger] chars[q]),
    ensures
        ({
            let t = s.update(i, s[j]).update(j, s[i]);
            &&& score_total(t) == score_total(s)
            &&& leaf_total(t) == leaf_total(s)
            &&& forall|c: char| #[trigger] char_total(t, c) == char_total(s, c)
            &&& forall|q: int| 0 <= q < chars.len() ==> holds_char(t, #[trigger] chars[q])
        }),
{
    let u = s.update(i, s[j]);
    let t = u.update(j, s[i]);
    lemma_score_update(s, i, s[j]);
    lemma_score_update(u, j, s[i]);
    assert forall|c: char| #[trigger] char_total(t, c) == char_total(s, c) by {
        lemma_char_update(s, i, s[j], c);
        lemma_char_update(u, j, s[i], c);
    }
    assert forall|q: int| 0 <= q < chars.len() implies holds_char(t, #[trigger] chars[q]) by {
        let m = choose|m: int| 0 <= m < s.len() && leaves(#[trigger] s[m].node).contains(chars[q]);
        if m == i {
            assert(t[j] == s[i]);
        } else if m == j {
            assert(t[i] == s[j]);
        } else {
            assert(t[m] == s[m]);
        }
    }
}

} // verus!
