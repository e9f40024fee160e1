//! Glob patterns over byte strings: `*`, `?`, `[...]` classes and escapes.
use vstd::prelude::*;
use vstd::slice::slice_to_vec;

verus! {

broadcast use vstd::std_specs::vec::group_vec_axioms, vstd::seq::group_seq_axioms, vstd::slice::group_slice_axioms;

/// One member of a character class.
#[derive(PartialEq, Eq, Structural, Clone, Copy, Debug)]
pub enum PatElement {
    Char(u8),
    /// An inclusive range, low end first.
    Range(u8, u8),
}

/// A compiled pattern node.
#[derive(Debug)]
pub enum Node {
    Chars(Vec<u8>),
    Question,
    Star,
    Pat(Vec<PatElement>),
    NoPat(Vec<PatElement>),
}

/// The mathematical content of a node.
pub enum GNode {
    Chars(Seq<u8>),
    Question,
    Star,
    Pat(Seq<PatElement>),
    NoPat(Seq<PatElement>),
}

pub open spec fn node_view(n: Node) -> GNode {
    match n {
        Node::Chars(v) => GNode::Chars(v@),
        Node::Question => GNode::Question,
        Node::Star => GNode::Star,
        Node::Pat(es) => GNode::Pat(es@),
        Node::NoPat(es) => GNode::NoPat(es@),
    }
}

pub open spec fn nodes_view(ns: Seq<Node>) -> Seq<GNode> {
    ns.map_values(|n: Node| node_view(n))
}

pub open spec fn elem_has(e: PatElement, c: u8) -> bool {
    match e {
        PatElement::Char(x) => x == c,
        PatElement::Range(lo, hi) => lo <= c <= hi,
    }
}

pub open spec fn class_has(es: Seq<PatElement>, c: u8) -> bool {
    exists|i: int| 0 <= i < es.len() && elem_has(#[trigger] es[i], c)
}

/// Whether `s` matches the node sequence as a whole.
pub open spec fn nodes_match(ns: Seq<GNode>, s: Seq<u8>) -> bool
    decreases ns.len(), s.len(),
{
    if ns.len() == 0 {
        s.len() == 0
    } else {
        let rest = ns.drop_first();
        match ns[0] {
            GNode::Star => nodes_match(rest, s) || (s.len() > 0 && nodes_match(
                ns,
                s.subrange(1, s.len() as int),
            )),
            GNode::Question => s.len() >= 1 && nodes_match(rest, s.subrange(1, s.len() as int)),
            GNode::Chars(v) => v.len() <= s.len() && s.subrange(0, v.len() as int) == v
                && nodes_match(rest, s.subrange(v.len() as int, s.len() as int)),
            GNode::Pat(es) => s.len() >= 1 && class_has(es, s[0]) && nodes_match(
                rest,
                s.subrange(1, s.len() as int),
            ),
            GNode::NoPat(es) => s.len() >= 1 && !class_has(es, s[0]) && nodes_match(
                rest,
                s.subrange(1, s.len() as int),
            ),
        }
    }
}

/// The bytes that `*`, `?` and `[` stand for when escaped outside a class.
pub open spec fn is_special(c: u8) -> bool {
    c == 42u8 || c == 63u8 || c == 91u8
}

/// One literal unit at `i`: a plain byte, or an escape. `\` before a special
/// byte stands for that byte; before any other byte it stands for both bytes.
pub open spec fn lit_step(p: Seq<u8>, i: int) -> Option<(Seq<u8>, int)> {
    if i < 0 || i >= p.len() || is_special(p[i]) {
        None
    } else if p[i] == 92u8 {
        if i + 1 >= p.len() {
            Some((seq![92u8], i + 1))
        } else if is_special(p[i + 1]) {
            Some((seq![p[i + 1]], i + 2))
        } else {
            Some((seq![92u8, p[i + 1]], i + 2))
        }
    } else {
        Some((seq![p[i]], i + 1))
    }
}

/// The maximal run of literal units from `i`, and where it ends.
pub open spec fn lit_run(p: Seq<u8>, i: int) -> (Seq<u8>, int)
    decreases p.len() - i,
{
    match lit_step(p, i) {
        Some((b, j)) => if j <= i {
            (Seq::empty(), i)
        } else {
            let (rest, e) = lit_run(p, j);
            (b + rest, e)
        },
        None => (Seq::empty(), i),
    }
}

/// The class members from `i` up to the closing `]` (or the end of the
/// pattern), and the position after it. `\x` stands for `x`; `a-b` is the
/// range between `a` and `b`, in either order.
pub open spec fn class_items(p: Seq<u8>, i: int) -> (Seq<PatElement>, int)
    decreases p.len() - i,
{
    if i < 0 || i >= p.len() {
        (Seq::empty(), p.len() as int)
    } else if p[i] == 93u8 {
        (Seq::empty(), i + 1)
    } else {
        let c = if p[i] == 92u8 && i + 1 < p.len() {
            p[i + 1]
        } else {
            p[i]
        };
        let j = if p[i] == 92u8 && i + 1 < p.len() {
            i + 2
        } else {
            i + 1
        };
        if j + 1 < p.len() && p[j] == 45u8 && p[j + 1] != 93u8 {
            let hi = p[j + 1];
            let e = if c <= hi {
                PatElement::Range(c, hi)
            } else {
                PatElement::Range(hi, c)
            };
            let (rest, end) = class_items(p, j + 2);
            (seq![e] + rest, end)
        } else {
            let (rest, end) = class_items(p, j);
            (seq![PatElement::Char(c)] + rest, end)
        }
    }
}

/// The nodes for the pattern from `i` on; `None` when it can match nothing.
pub open spec fn tokens_from(p: Seq<u8>, i: int) -> Option<Seq<GNode>>
    decreases p.len() - i,
{
    if i < 0 || i >= p.len() {
        Some(Seq::empty())
    } else if p[i] == 42u8 {
        if i + 1 < p.len() && p[i + 1] == 42u8 {
            tokens_from(p, i + 1)
        } else {
            match tokens_from(p, i + 1) {
                Some(t) => Some(seq![GNode::Star] + t),
                None => None,
            }
        }
    } else if p[i] == 63u8 {
        match tokens_from(p, i + 1) {
            Some(t) => Some(seq![GNode::Question] + t),
            None => None,
        }
    } else if p[i] == 91u8 {
        let negated = i + 1 < p.len() && p[i + 1] == 94u8;
        let start = if negated {
            i + 2
        } else {
            i + 1
        };
        let (items, end) = class_items(p, start);
        if end <= i || end > p.len() {
            None
        } else if items.len() == 0 && !negated {
            None
        } else {
            let node = if items.len() == 0 {
                GNode::Question
            } else if negated {
                GNode::NoPat(items)
            } else {
                GNode::Pat(items)
            };
            match tokens_from(p, end) {
                Some(t) => Some(seq![node] + t),
                None => None,
            }
        }
    } else {
        let (v, end) = lit_run(p, i);
        if end <= i || end > p.len() {
            None
        } else {
            match tokens_from(p, end) {
                Some(t) => Some(seq![GNode::Chars(v)] + t),
                None => None,
            }
        }
    }
}

/// The compiled form of a whole pattern; the empty pattern matches nothing.
pub open spec fn compile(p: Seq<u8>) -> Option<Seq<GNode>> {
    if p.len() == 0 {
        None
    } else {
        tokens_from(p, 0)
    }
}

/// Whether byte string `s` matches glob pattern `p`.
pub open spec fn glob_match(p: Seq<u8>, s: Seq<u8>) -> bool {
    match compile(p) {
        Some(ns) => nodes_match(ns, s),
        None => false,
    }
}

/// Reads the run of literal units from `i`.
fn read_literals(p: &[u8], i: usize) -> (r: (Vec<u8>, usize))
    requires
        i <= p@.len(),
    ensures
        r.0@ == lit_run(p@, i as int).0,
        r.1 == lit_run(p@, i as int).1,
        i <= r.1 <= p@.len(),
{
    let mut buf: Vec<u8> = Vec::new();
    let mut j: usize = i;
    loop
        invariant
            i <= j <= p@.len(),
            lit_run(p@, i as int) == (buf@ + lit_run(p@, j as int).0, lit_run(p@, j as int).1),
        decreases p@.len() - j,
    {
        if j >= p.len() || p[j] == 42u8 || p[j] == 63u8 || p[j] == 91u8 {
            assert(lit_run(p@, j as int).0 =~= Seq::<u8>::empty());
            assert(buf@ + Seq::<u8>::empty() =~= buf@);
            return (buf, j);
        }
        let ghost before = buf@;
        let ghost j0 = j as int;
        if p[j] == 92u8 {
            if j + 1 >= p.len() {
                buf.push(92u8);
                j = j + 1;
            } else if p[j + 1] == 42u8 || p[j + 1] == 63u8 || p[j + 1] == 91u8 {
                buf.push(p[j + 1]);
                j = j + 2;
            } else {
                buf.push(92u8);
                buf.push(p[j + 1]);
                j = j + 2;
            }
        } else {
            buf.push(p[j]);
            j = j + 1;
        }
        proof {
            let pair = lit_step(p@, j0)->0;
            assert(buf@ =~= before + pair.0);
            assert(pair.1 == j as int);
            assert(lit_run(p@, j0) == (pair.0 + lit_run(p@, j as int).0, lit_run(p@, j as int).1));
            assert(before + (pair.0 + lit_run(p@, j as int).0) =~= buf@ + lit_run(p@, j as int).0);
        }
    }
}

/// Reads the members of a class from `i` through its closing `]`.
fn compile_bracket(p: &[u8], i: usize) -> (r: (Vec<PatElement>, usize))
    requires
        i <= p@.len(),
    ensures
        r.0@ == class_items(p@, i as int).0,
        r.1 == class_items(p@, i as int).1,
        i <= r.1 <= p@.len(),
{
    let mut items: Vec<PatElement> = Vec::new();
    let mut j: usize = i;
    loop
        invariant
            i <= j <= p@.len(),
            class_items(p@, i as int) == (items@ + class_items(p@, j as int).0, class_items(p@, j as int).1),
        decreases p@.len() - j,
    {
        if j >= p.len() {
            assert(items@ + Seq::<PatElement>::empty() =~= items@);
            return (items, p.len());
        }
        if p[j] == 93u8 {
            assert(items@ + Seq::<PatElement>::empty() =~= items@);
            return (items, j + 1);
        }
        let ghost before = items@;
        let ghost j0 = j as int;
        let escaped = p[j] == 92u8 && j + 1 < p.len();
        let c: u8 = if escaped { p[j + 1] } else { p[j] };
        let next: usize = if escaped { j + 2 } else { j + 1 };
        let e = if next < p.len() - 1 && p[next] == 45u8 && p[next + 1] != 93u8 {
            let hi = p[next + 1];
            j = next + 2;
            if c <= hi {
                PatElement::Range(c, hi)
            } else {
                PatElement::Range(hi, c)
            }
        } else {
            j = next;
            PatElement::Char(c)
        };
        items.push(e);
        proof {
            let rest = class_items(p@, j as int);
            assert(class_items(p@, j0) == (seq![e] + rest.0, rest.1));
            assert(before + (seq![e] + rest.0) =~= items@ + rest.0);
        }
    }
}

/// Compiles a pattern; `None` when it can match nothing.
fn compile_pattern(p: &[u8]) -> (r: Option<Vec<Node>>)
    ensures
        match compile(p@) {
            None => r is None,
            Some(t) => r is Some && nodes_view(r->0@) == t,
        },
{
    if p.len() == 0 {
        return None;
    }
    let mut nodes: Vec<Node> = Vec::new();
    let mut i: usize = 0;
    while i < p.len()
        invariant
            i <= p@.len(),
            p@.len() > 0,
            tokens_from(p@, 0) == match tokens_from(p@, i as int) {
                Some(t) => Some(nodes_view(nodes@) + t),
                None => None::<Seq<GNode>>,
            },
        decreases p@.len() - i,
    {
        let ghost before = nodes_view(nodes@);
        let ghost i0 = i as int;
        let c = p[i];
        if c == 42u8 {
            if i + 1 < p.len() && p[i + 1] == 42u8 {
                i = i + 1;
                continue;
            }
            nodes.push(Node::Star);
            i = i + 1;
        } else if c == 63u8 {
            nodes.push(Node::Question);
            i = i + 1;
        } else if c == 91u8 {
            let negated = i + 1 < p.len() && p[i + 1] == 94u8;
            let start: usize = if negated { i + 2 } else { i + 1 };
            let (items, end) = compile_bracket(p, start);
            if items.len() == 0 && !negated {
                return None;
            }
            if items.len() == 0 {
                nodes.push(Node::Question);
            } else if negated {
                nodes.push(Node::NoPat(items));
            } else {
                nodes.push(Node::Pat(items));
            }
            i = end;
        } else {
            let (v, end) = read_literals(p, i);
            if end <= i {
                return None;
            }
            nodes.push(Node::Chars(v));
            i = end;
        }
        proof {
            let node = node_view(nodes@.last());
            assert(nodes_view(nodes@) =~= before.push(node));
            match tokens_from(p@, i as int) {
                Some(t) => {
                    assert(tokens_from(p@, i0) == Some(seq![node] + t));
                    assert(before + (seq![node] + t) =~= nodes_view(nodes@) + t);
                },
                None => {},
            }
        }
    }
    assert(nodes_view(nodes@) + Seq::<GNode>::empty() =~= nodes_view(nodes@));
    Some(nodes)
}

fn class_contains(es: &Vec<PatElement>, c: u8) -> (r: bool)
    ensures
        r == class_has(es@, c),
{
    let mut k: usize = 0;
    while k < es.len()
        invariant
            k <= es@.len(),
            forall|j: int| 0 <= j < k ==> !elem_has(#[trigger] es@[j], c),
        decreases es@.len() - k,
    {
        let hit = match es[k] {
            PatElement::Char(x) => x == c,
            PatElement::Range(lo, hi) => lo <= c && c <= hi,
        };
        if hit {
            assert(elem_has(es@[k as int], c));
            return true;
        }
        k += 1;
    }
    false
}

proof fn lemma_tail(s: Seq<u8>, si: int, k: int)
    requires
        0 <= si <= s.len(),
        0 <= k <= s.len() - si,
    ensures
        s.subrange(si, s.len() as int).subrange(k, s.len() - si) == s.subrange(si + k, s.len() as int),
{
    assert(s.subrange(si, s.len() as int).subrange(k, s.len() - si) =~= s.subrange(si + k, s.len() as int));
}

/// The backtracking engine: whether `s` from `si` matches the nodes from `ni`.
fn run_node(ns: &Vec<Node>, ni: usize, s: &[u8], si: usize) -> (r: bool)
    requires
        ni <= ns@.len(),
        si <= s@.len(),
    ensures
        r == nodes_match(
            nodes_view(ns@).subrange(ni as int, ns@.len() as int),
            s@.subrange(si as int, s@.len() as int),
        ),
    decreases ns@.len() - ni,
{
    let ghost v = nodes_view(ns@).subrange(ni as int, ns@.len() as int);
    let ghost t = s@.subrange(si as int, s@.len() as int);
    if ni == ns.len() {
        return si == s.len();
    }
    let ghost rest = nodes_view(ns@).subrange(ni + 1, ns@.len() as int);
    assert(v.drop_first() =~= rest);
    assert(v[0] == node_view(ns@[ni as int]));
    match &ns[ni] {
        Node::Star => {
            let next_ni = ni + 1;
            let mut k: usize = si;
            loop
                invariant
                    si <= k <= s@.len(),
                    next_ni == ni + 1,
                    next_ni <= ns@.len(),
                    rest == nodes_view(ns@).subrange(ni + 1, ns@.len() as int),
                    v == nodes_view(ns@).subrange(ni as int, ns@.len() as int),
                    t == s@.subrange(si as int, s@.len() as int),
                    v.drop_first() == rest,
                    v[0] == GNode::Star,
                    nodes_match(v, t) == nodes_match(v, s@.subrange(k as int, s@.len() as int)),
                decreases s@.len() - k,
            {
                let ghost u = s@.subrange(k as int, s@.len() as int);
                if run_node(ns, next_ni, s, k) {
                    return true;
                }
                if k == s.len() {
                    return false;
                }
                assert(u.subrange(1, u.len() as int) =~= s@.subrange(k + 1, s@.len() as int));
                k += 1;
            }
        },
        Node::Question => {
            if si == s.len() {
                return false;
            }
            proof {
                lemma_tail(s@, si as int, 1);
            }
            run_node(ns, ni + 1, s, si + 1)
        },
        Node::Chars(pat) => {
            if pat.len() > s.len() - si {
                return false;
            }
            let end = si + pat.len();
            let mut k: usize = 0;
            while k < pat.len()
                invariant
                    k <= pat@.len(),
                    end == si + pat@.len(),
                    end <= s@.len(),
                    t == s@.subrange(si as int, s@.len() as int),
                    v == nodes_view(ns@).subrange(ni as int, ns@.len() as int),
                    v.len() > 0,
                    v[0] == GNode::Chars(pat@),
                    forall|j: int| 0 <= j < k ==> s@[si + j] == #[trigger] pat@[j],
                decreases pat@.len() - k,
            {
                if s[si + k] != pat[k] {
                    proof {
                        assert(t.subrange(0, pat@.len() as int)[k as int] != pat@[k as int]);
                    }
                    return false;
                }
                k += 1;
            }
            proof {
                assert(t.subrange(0, pat@.len() as int) =~= pat@);
                lemma_tail(s@, si as int, pat@.len() as int);
            }
            run_node(ns, ni + 1, s, si + pat.len())
        },
        Node::Pat(es) => {
            if si == s.len() {
                return false;
            }
            if !class_contains(es, s[si]) {
                return false;
            }
            proof {
                lemma_tail(s@, si as int, 1);
            }
            run_node(ns, ni + 1, s, si + 1)
        },
        Node::NoPat(es) => {
            if si == s.len() {
                return false;
            }
            if class_contains(es, s[si]) {
                return false;
            }
            proof {
                lemma_tail(s@, si as int, 1);
            }
            run_node(ns, ni + 1, s, si + 1)
        },
    }
}

/// `needle` occurs in `hay` at position `i`.
pub open spec fn occurs_at(hay: Seq<u8>, needle: Seq<u8>, i: int) -> bool {
    0 <= i && i + needle.len() <= hay.len() && hay.subrange(i, i + needle.len()) == needle
}

/// `needle` occurs somewhere in `hay`.
pub open spec fn contains(hay: Seq<u8>, needle: Seq<u8>) -> bool {
    exists|i: int| occurs_at(hay, needle, i)
}

/// Relies on memchr::memmem::find: the position of the first occurrence of
/// `needle` in `haystack`, or `None` when there is none.
#[verifier::external_body]
fn find_first(haystack: &[u8], needle: &[u8]) -> (r: Option<usize>)
    ensures
        match r {
            Some(i) => occurs_at(haystack@, needle@, i as int) && forall|j: int|
                0 <= j < i ==> !occurs_at(haystack@, needle@, j),
            None => forall|j: int| !occurs_at(haystack@, needle@, j),
        },
{
    memchr::memmem::find(haystack, needle)
}

/// The number of `?` nodes.
pub open spec fn count_q(ns: Seq<GNode>) -> nat
    decreases ns.len(),
{
    if ns.len() == 0 {
        0
    } else {
        count_q(ns.drop_first()) + if ns[0] is Question {
            1nat
        } else {
            0nat
        }
    }
}

/// Whether a `*` node is present.
pub open spec fn has_star(ns: Seq<GNode>) -> bool
    decreases ns.len(),
{
    ns.len() > 0 && (ns[0] is Star || has_star(ns.drop_first()))
}

/// Every node is `?` or `*`.
pub open spec fn wildcards_only(ns: Seq<GNode>) -> bool {
    forall|i: int| 0 <= i < ns.len() ==> (#[trigger] ns[i] is Star || ns[i] is Question)
}

proof fn lemma_star_alone(s: Seq<u8>)
    ensures
        nodes_match(seq![GNode::Star], s),
    decreases s.len(),
{
    let ns = seq![GNode::Star];
    assert(ns.drop_first() =~= Seq::<GNode>::empty());
    assert(nodes_match(Seq::<GNode>::empty(), s) == (s.len() == 0));
    if s.len() > 0 {
        lemma_star_alone(s.subrange(1, s.len() as int));
    }
    assert(nodes_match(ns, s) == (nodes_match(ns.drop_first(), s) || (s.len() > 0 && nodes_match(
        ns,
        s.subrange(1, s.len() as int),
    ))));
}

proof fn lemma_chars_alone(v: Seq<u8>, s: Seq<u8>)
    ensures
        nodes_match(seq![GNode::Chars(v)], s) == (s == v),
{
    let ns = seq![GNode::Chars(v)];
    assert(ns.drop_first() =~= Seq::<GNode>::empty());
    let tail = s.subrange(v.len() as int, s.len() as int);
    assert(nodes_match(Seq::<GNode>::empty(), tail) == (tail.len() == 0));
    assert(nodes_match(ns, s) == (v.len() <= s.len() && s.subrange(0, v.len() as int) == v
        && nodes_match(ns.drop_first(), tail)));
    if s == v {
        assert(s.subrange(0, v.len() as int) =~= v);
        assert(s.subrange(v.len() as int, s.len() as int) =~= Seq::<u8>::empty());
    }
    if nodes_match(ns, s) {
        assert(s =~= s.subrange(0, v.len() as int));
    }
}

proof fn lemma_needle(v: Seq<u8>, s: Seq<u8>)
    ensures
        nodes_match(seq![GNode::Star, GNode::Chars(v), GNode::Star], s) == contains(s, v),
    decreases s.len(),
{
    let ns = seq![GNode::Star, GNode::Chars(v), GNode::Star];
    let cs = seq![GNode::Chars(v), GNode::Star];
    assert(ns.drop_first() =~= cs);
    assert(cs.drop_first() =~= seq![GNode::Star]);
    let prefix = v.len() <= s.len() && s.subrange(0, v.len() as int) == v;
    if v.len() <= s.len() {
        lemma_star_alone(s.subrange(v.len() as int, s.len() as int));
    }
    assert(nodes_match(cs, s) == prefix);
    if prefix {
        assert(occurs_at(s, v, 0));
    }
    if s.len() > 0 {
        let t = s.subrange(1, s.len() as int);
        lemma_needle(v, t);
        if contains(t, v) {
            let i = choose|i: int| occurs_at(t, v, i);
            assert(s.subrange(i + 1, i + 1 + v.len()) =~= t.subrange(i, i + v.len()));
            assert(occurs_at(s, v, i + 1));
        }
        if contains(s, v) && !prefix {
            let i = choose|i: int| occurs_at(s, v, i);
            if i == 0 {
                assert(false);
            }
            assert(s.subrange(i, i + v.len()) =~= t.subrange(i - 1, i - 1 + v.len()));
            assert(occurs_at(t, v, i - 1));
        }
    } else {
        if contains(s, v) {
            let i = choose|i: int| occurs_at(s, v, i);
            assert(i == 0);
        }
    }
}

proof fn lemma_wildcards(ns: Seq<GNode>, s: Seq<u8>)
    requires
        wildcards_only(ns),
    ensures
        nodes_match(ns, s) == if has_star(ns) {
            s.len() >= count_q(ns)
        } else {
            s.len() == count_q(ns)
        },
    decreases ns.len(), s.len(),
{
    if ns.len() > 0 {
        let rest = ns.drop_first();
        assert(wildcards_only(rest)) by {
            assert forall|i: int| 0 <= i < rest.len() implies (#[trigger] rest[i] is Star || rest[i] is Question) by {
                assert(rest[i] == ns[i + 1]);
            };
        };
        assert(ns[0] is Star || ns[0] is Question);
        lemma_wildcards(rest, s);
        if s.len() > 0 {
            lemma_wildcards(rest, s.subrange(1, s.len() as int));
            lemma_wildcards(ns, s.subrange(1, s.len() as int));
        }
    }
}

/// A compiled pattern, specialised to the cheapest test that decides it.
#[derive(Debug)]
pub enum Finder {
    NoMatch,
    AllMatch,
    AllMatchWithLen(usize),
    AllMatchWithMinLen(usize),
    SimpleMatch(Vec<u8>),
    FindNeedle(Vec<u8>),
    RequiresMatch(Vec<Node>),
}

impl Finder {
    /// The byte strings the finder accepts.
    pub open spec fn denotes(&self, s: Seq<u8>) -> bool {
        match self {
            Finder::NoMatch => false,
            Finder::AllMatch => true,
            Finder::AllMatchWithLen(n) => s.len() == *n,
            Finder::AllMatchWithMinLen(n) => s.len() >= *n,
            Finder::SimpleMatch(v) => s == v@,
            Finder::FindNeedle(v) => contains(s, v@),
            Finder::RequiresMatch(ns) => nodes_match(nodes_view(ns@), s),
        }
    }

    /// Compiles `pattern` and picks the test for it.
    pub fn new(pattern: &[u8]) -> (f: Finder)
        ensures
            forall|s: Seq<u8>| #[trigger] f.denotes(s) == glob_match(pattern@, s),
    {
        let nodes = match compile_pattern(pattern) {
            None => {
                return Finder::NoMatch;
            },
            Some(ns) => ns,
        };
        let ghost v = nodes_view(nodes@);
        if nodes.len() == 1 {
            match &nodes[0] {
                Node::Star => {
                    proof {
                        assert(v =~= seq![GNode::Star]);
                        assert forall|s: Seq<u8>| nodes_match(v, s) by {
                            lemma_star_alone(s);
                        };
                    }
                    return Finder::AllMatch;
                },
                Node::Chars(c) => {
                    let w = slice_to_vec(c.as_slice());
                    proof {
                        assert(v =~= seq![GNode::Chars(c@)]);
                        assert forall|s: Seq<u8>| nodes_match(v, s) == (s == w@) by {
                            lemma_chars_alone(c@, s);
                        };
                    }
                    return Finder::SimpleMatch(w);
                },
                _ => {},
            }
        }
        if nodes.len() == 3 {
            if let (Node::Star, Node::Chars(c), Node::Star) = (&nodes[0], &nodes[1], &nodes[2]) {
                let w = slice_to_vec(c.as_slice());
                proof {
                    assert(v =~= seq![GNode::Star, GNode::Chars(c@), GNode::Star]);
                    assert forall|s: Seq<u8>| nodes_match(v, s) == contains(s, w@) by {
                        lemma_needle(c@, s);
                    };
                }
                return Finder::FindNeedle(w);
            }
        }
        assert(v.subrange(0, v.len() as int) =~= v);
        let mut qs: usize = 0;
        let mut star = false;
        let mut k: usize = 0;
        while k < nodes.len()
            invariant
                k <= nodes@.len(),
                v == nodes_view(nodes@),
                qs <= k,
                wildcards_only(v.subrange(0, k as int)),
                count_q(v) == qs + count_q(v.subrange(k as int, v.len() as int)),
                has_star(v) == (star || has_star(v.subrange(k as int, v.len() as int))),
            decreases nodes@.len() - k,
        {
            let ghost tail = v.subrange(k as int, v.len() as int);
            assert(tail.drop_first() =~= v.subrange(k + 1, v.len() as int));
            match &nodes[k] {
                Node::Star => {
                    star = true;
                },
                Node::Question => {
                    qs += 1;
                },
                _ => {
                    proof {
                        assert(!wildcards_only(v));
                    }
                    break;
                },
            }
            k += 1;
            assert(wildcards_only(v.subrange(0, k as int))) by {
                assert forall|i: int| 0 <= i < k implies (#[trigger] v.subrange(0, k as int)[i] is Star
                    || v.subrange(0, k as int)[i] is Question) by {
                    if i < k - 1 {
                        assert(v.subrange(0, k as int)[i] == v.subrange(0, k - 1)[i]);
                    }
                };
            };
        }
        if k == nodes.len() {
            proof {
                assert(v.subrange(0, k as int) =~= v);
                assert(v.subrange(k as int, v.len() as int) =~= Seq::<GNode>::empty());
                assert forall|s: Seq<u8>| nodes_match(v, s) == if star {
                    s.len() >= qs
                } else {
                    s.len() == qs
                } by {
                    lemma_wildcards(v, s);
                };
            }
            if star {
                return Finder::AllMatchWithMinLen(qs);
            } else {
                return Finder::AllMatchWithLen(qs);
            }
        }
        Finder::RequiresMatch(nodes)
    }

    /// Whether `input` matches.
    pub fn do_match(&self, input: &[u8]) -> (r: bool)
        ensures
            r == self.denotes(input@),
    {
        match self {
            Finder::NoMatch => false,
            Finder::AllMatch => true,
            Finder::AllMatchWithLen(n) => input.len() == *n,
            Finder::AllMatchWithMinLen(n) => input.len() >= *n,
            Finder::SimpleMatch(v) => crate::text::bytes_eq(input, v.as_slice()),
            Finder::FindNeedle(v) => find_first(input, v.as_slice()).is_some(),
            Finder::RequiresMatch(ns) => {
                let r = run_node(ns, 0, input, 0);
                proof {
                    assert(nodes_view(ns@).subrange(0, ns@.len() as int) =~= nodes_view(ns@));
                    assert(input@.subrange(0, input@.len() as int) =~= input@);
                }
                r
            },
        }
    }
}

/// The pattern `*` matches every byte string.
pub proof fn lemma_star_matches_all(s: Seq<u8>)
    ensures
        glob_match(seq![42u8], s),
{
    let p = seq![42u8];
    assert(tokens_from(p, 1) == Some(Seq::<GNode>::empty()));
    assert(tokens_from(p, 0) == Some(seq![GNode::Star] + Seq::<GNode>::empty()));
    assert(seq![GNode::Star] + Seq::<GNode>::empty() =~= seq![GNode::Star]);
    lemma_star_alone(s);
}

} // verus!
