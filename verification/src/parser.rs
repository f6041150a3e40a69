//! The bracketed-notation parser and serializer.
//!
//! The accepted grammar is zero or more records `"(" NAME "," NAME "," DIGITS
//! ")"`, each followed by a comma, with whitespace ignored everywhere. A
//! record commits one arc and registers both endpoint names as vertices. The
//! resulting graph is normalized: vertices sorted lexicographically without
//! duplicates, arcs sorted by ascending order, stable with respect to input
//! order.

use vstd::prelude::*;

use crate::graph::{arcs_view, names_unique, names_view, Arc, ArcM, Graph, GraphM};
use crate::strutil::{
    all_digits, alnum_char, append_char_from, digit_char, digit_val, digits_val, is_alnum_char,
    is_digit_char, is_ws_char, lemma_digits_val_grows, lemma_digits_val_nonneg, str_lt,
    str_lt_exec, ws_char,
};

verus! {

/// What the parser is waiting for next; one state per position inside a
/// record, plus the boundary state between records, which is also the only
/// accepting state.
#[derive(PartialEq, Eq, Structural, Clone, Copy, Debug)]
pub enum Mode {
    ExpectOpen,
    ExpectFrom,
    ExpectTo,
    ExpectOrder,
    ExpectComma,
}

/// The whole machine state: the mode, the partially read record, and
/// everything committed so far. `verts` keeps first-seen order and never
/// repeats a name.
#[verifier::ext_equal]
pub ghost struct ParseState {
    pub mode: Mode,
    pub from: Seq<char>,
    pub to: Seq<char>,
    pub digits: Seq<char>,
    pub verts: Seq<Seq<char>>,
    pub arcs: Seq<ArcM>,
}

pub open spec fn init_state() -> ParseState {
    ParseState {
        mode: Mode::ExpectOpen,
        from: Seq::empty(),
        to: Seq::empty(),
        digits: Seq::empty(),
        verts: Seq::empty(),
        arcs: Seq::empty(),
    }
}

/// Registers a vertex name unless it is already known.
pub open spec fn insert_vertex(vs: Seq<Seq<char>>, x: Seq<char>) -> Seq<Seq<char>> {
    if vs.contains(x) {
        vs
    } else {
        vs.push(x)
    }
}

/// Commits the record being read: appends the arc, registers both endpoints,
/// and clears the record accumulators.
pub open spec fn commit_arc(st: ParseState) -> ParseState {
    ParseState {
        mode: Mode::ExpectComma,
        from: Seq::empty(),
        to: Seq::empty(),
        digits: Seq::empty(),
        verts: insert_vertex(insert_vertex(st.verts, st.from), st.to),
        arcs: st.arcs.push(
            ArcM { from: st.from, to: st.to, order: digits_val(st.digits) },
        ),
    }
}

/// One character of input. Whitespace is skipped in every state; any other
/// character outside the current state's accepted set is a fatal error.
pub open spec fn step(st: ParseState, c: char) -> Option<ParseState> {
    if is_ws_char(c) {
        Some(st)
    } else {
        match st.mode {
            Mode::ExpectOpen => {
                if c == '(' {
                    Some(ParseState { mode: Mode::ExpectFrom, ..st })
                } else {
                    None
                }
            },
            Mode::ExpectFrom => {
                if c == ',' {
                    if st.from.len() == 0 {
                        None
                    } else {
                        Some(ParseState { mode: Mode::ExpectTo, ..st })
                    }
                } else if is_alnum_char(c) {
                    Some(ParseState { from: st.from.push(c), ..st })
                } else {
                    None
                }
            },
            Mode::ExpectTo => {
                if c == ',' {
                    if st.to.len() == 0 {
                        None
                    } else {
                        Some(ParseState { mode: Mode::ExpectOrder, ..st })
                    }
                } else if is_alnum_char(c) {
                    Some(ParseState { to: st.to.push(c), ..st })
                } else {
                    None
                }
            },
            Mode::ExpectOrder => {
                if c == ')' {
                    if st.digits.len() == 0 || digits_val(st.digits) > i32::MAX {
                        None
                    } else {
                        Some(commit_arc(st))
                    }
                } else if is_digit_char(c) {
                    Some(ParseState { digits: st.digits.push(c), ..st })
                } else {
                    None
                }
            },
            Mode::ExpectComma => {
                if c == ',' {
                    Some(ParseState { mode: Mode::ExpectOpen, ..st })
                } else {
                    None
                }
            },
        }
    }
}

/// The machine state after the first `i` characters; `None` once any
/// character has been rejected.
pub open spec fn run_to(s: Seq<char>, i: int) -> Option<ParseState>
    decreases i,
{
    if i <= 0 {
        Some(init_state())
    } else {
        match run_to(s, i - 1) {
            Some(st) => step(st, s[i - 1]),
            None => None,
        }
    }
}

/// A rejection never recovers.
pub proof fn lemma_run_to_none_sticky(s: Seq<char>, i: int, j: int)
    requires
        0 <= i <= j,
        run_to(s, i) is None,
    ensures
        run_to(s, j) is None,
    decreases j - i,
{
    if j > i {
        lemma_run_to_none_sticky(s, i, j - 1);
    }
}

/// Inserts a string before the first element that is not below it.
pub open spec fn insert_str_sorted(x: Seq<char>, s: Seq<Seq<char>>) -> Seq<Seq<char>>
    decreases s.len(),
{
    if s.len() == 0 {
        seq![x]
    } else if str_lt(s[0], x) {
        seq![s[0]] + insert_str_sorted(x, s.drop_first())
    } else {
        seq![x] + s
    }
}

/// Insertion sort, lexicographic and deterministic.
pub open spec fn sort_strs(s: Seq<Seq<char>>) -> Seq<Seq<char>>
    decreases s.len(),
{
    if s.len() == 0 {
        Seq::empty()
    } else {
        insert_str_sorted(s.last(), sort_strs(s.drop_last()))
    }
}

/// Inserts an arc after every arc whose order does not exceed its own, which
/// keeps the sort stable.
pub open spec fn insert_arc_sorted(x: ArcM, s: Seq<ArcM>) -> Seq<ArcM>
    decreases s.len(),
{
    if s.len() == 0 {
        seq![x]
    } else if s[0].order <= x.order {
        seq![s[0]] + insert_arc_sorted(x, s.drop_first())
    } else {
        seq![x] + s
    }
}

/// Stable insertion sort of arcs by ascending order.
pub open spec fn sort_arcs(s: Seq<ArcM>) -> Seq<ArcM>
    decreases s.len(),
{
    if s.len() == 0 {
        Seq::empty()
    } else {
        insert_arc_sorted(s.last(), sort_arcs(s.drop_last()))
    }
}

/// What `parse_input` returns, as a function of the input text alone: run the
/// machine over the whole text, accept only at a record boundary, then
/// normalize.
pub open spec fn parse_spec(s: Seq<char>) -> Option<GraphM> {
    match run_to(s, s.len() as int) {
        Some(st) => {
            if st.mode == Mode::ExpectOpen {
                Some(GraphM { verts: sort_strs(st.verts), arcs: sort_arcs(st.arcs) })
            } else {
                None
            }
        },
        None => None,
    }
}

/// The textual record of one arc, trailing comma included.
pub open spec fn record_of(a: ArcM) -> Seq<char> {
    seq!['('] + a.from + seq![','] + a.to + seq![','] + crate::strutil::dec_digits(
        a.order as nat,
    ) + seq![')'] + seq![',']
}

/// The notation text of an arc list: its records, one after another. The
/// notation carries arcs only; isolated vertices have no spelling in it.
pub open spec fn notation_of(arcs: Seq<ArcM>) -> Seq<char>
    decreases arcs.len(),
{
    if arcs.len() == 0 {
        Seq::empty()
    } else {
        notation_of(arcs.drop_last()) + record_of(arcs.last())
    }
}

/// Serializes the graph's arcs back into the bracketed notation. An order
/// value below zero has no spelling in the grammar, so such a graph is
/// refused.
pub fn to_notation(g: &Graph) -> (r: Option<String>)
    ensures
        match r {
            Some(s) => (forall|k: int|
                0 <= k < g@.arcs.len() ==> (#[trigger] g@.arcs[k]).order >= 0) && s@
                == notation_of(g@.arcs),
            None => exists|k: int| 0 <= k < g@.arcs.len() && (#[trigger] g@.arcs[k]).order < 0,
        },
{
    proof {
        reveal_strlit("(");
        reveal_strlit(")");
        reveal_strlit(",");
    }
    let mut s = String::new();
    let na = g.arcs.len();
    for k in 0..na
        invariant
            na == g.arcs.len(),
            "("@ == seq!['('],
            ")"@ == seq![')'],
            ","@ == seq![','],
            forall|p: int| 0 <= p < k ==> (#[trigger] g@.arcs[p]).order >= 0,
            s@ == notation_of(g@.arcs.take(k as int)),
    {
        let a = &g.arcs[k];
        if a.order < 0 {
            proof {
                assert(g@.arcs[k as int].order < 0);
            }
            return None;
        }
        let digits = crate::strutil::u32_to_dec(a.order as u32);
        let ghost before = s@;
        s.append("(");
        s.append(a.from.as_str());
        s.append(",");
        s.append(a.to.as_str());
        s.append(",");
        s.append(digits.as_str());
        s.append(")");
        s.append(",");
        proof {
            assert(g@.arcs.take(k + 1).drop_last() =~= g@.arcs.take(k as int));
            assert(g@.arcs.take(k + 1).last() == g@.arcs[k as int]);
            assert(s@ =~= before + record_of(g@.arcs[k as int]));
        }
    }
    proof {
        assert(g@.arcs.take(na as int) =~= g@.arcs);
    }
    Some(s)
}

/// Whether a vertex list holds a given name.
fn contains_name(vs: &Vec<String>, x: &String) -> (r: bool)
    ensures
        r == names_view(vs@).contains(x@),
{
    let n = vs.len();
    for i in 0..n
        invariant
            n == vs.len(),
            forall|k: int| 0 <= k < i ==> names_view(vs@)[k] != x@,
    {
        if vs[i] == *x {
            proof {
                assert(names_view(vs@)[i as int] == vs@[i as int]@);
            }
            return true;
        }
        proof {
            assert(names_view(vs@)[i as int] == vs@[i as int]@);
        }
    }
    proof {
        if names_view(vs@).contains(x@) {
            let k = choose|k: int| 0 <= k < names_view(vs@).len() && names_view(vs@)[k] == x@;
            assert(names_view(vs@)[k] != x@);
        }
    }
    false
}

/// Appends `x` to `vs` unless it is already present, mirroring
/// `insert_vertex`.
fn push_vertex(vs: &mut Vec<String>, x: String)
    ensures
        names_view(final(vs)@) == insert_vertex(names_view(old(vs)@), x@),
{
    if !contains_name(vs, &x) {
        let ghost before = names_view(vs@);
        vs.push(x);
        proof {
            assert(names_view(vs@) =~= before.push(x@));
        }
    }
}

/// Characterizes `insert_str_sorted` by the insertion point: everything
/// before `idx` is below `x`, and the element at `idx` (if any) is not.
proof fn lemma_insert_str_at(x: Seq<char>, s: Seq<Seq<char>>, idx: int)
    requires
        0 <= idx <= s.len(),
        forall|p: int| 0 <= p < idx ==> str_lt(#[trigger] s[p], x),
        idx < s.len() ==> !str_lt(s[idx], x),
    ensures
        insert_str_sorted(x, s) =~= s.subrange(0, idx) + seq![x] + s.subrange(idx, s.len() as int),
    decreases s.len(),
{
    if s.len() == 0 {
    } else if idx == 0 {
    } else {
        lemma_insert_str_at(x, s.drop_first(), idx - 1);
    }
}

/// The same characterization for the arc sort.
proof fn lemma_insert_arc_at(x: ArcM, s: Seq<ArcM>, idx: int)
    requires
        0 <= idx <= s.len(),
        forall|p: int| 0 <= p < idx ==> (#[trigger] s[p]).order <= x.order,
        idx < s.len() ==> s[idx].order > x.order,
    ensures
        insert_arc_sorted(x, s) =~= s.subrange(0, idx) + seq![x] + s.subrange(idx, s.len() as int),
    decreases s.len(),
{
    if s.len() == 0 {
    } else if idx == 0 {
    } else {
        lemma_insert_arc_at(x, s.drop_first(), idx - 1);
    }
}

/// Sorts the vertex names lexicographically.
fn sort_strings(v: Vec<String>) -> (r: Vec<String>)
    ensures
        names_view(r@) == sort_strs(names_view(v@)),
{
    let n = v.len();
    let mut out: Vec<String> = Vec::new();
    for k in 0..n
        invariant
            n == v.len(),
            names_view(out@) == sort_strs(names_view(v@).take(k as int)),
    {
        let x = v[k].clone();
        let mut idx: usize = 0;
        while idx < out.len() && str_lt_exec(out[idx].as_str(), x.as_str())
            invariant
                idx <= out.len(),
                forall|p: int| 0 <= p < idx ==> str_lt(#[trigger] names_view(out@)[p], x@),
            decreases out.len() - idx,
        {
            proof {
                assert(names_view(out@)[idx as int] == out@[idx as int]@);
            }
            idx = idx + 1;
        }
        let ghost before = names_view(out@);
        proof {
            if (idx as int) < before.len() {
                assert(before[idx as int] == out@[idx as int]@);
            }
            lemma_insert_str_at(x@, before, idx as int);
        }
        out.insert(idx, x);
        proof {
            assert(names_view(out@) =~= before.subrange(0, idx as int) + seq![x@]
                + before.subrange(idx as int, before.len() as int));
            assert(names_view(v@).take(k + 1).drop_last() =~= names_view(v@).take(k as int));
            assert(names_view(v@).take(k + 1).last() == x@);
        }
    }
    proof {
        assert(names_view(v@).take(n as int) =~= names_view(v@));
    }
    out
}

/// Sorts the arcs by ascending order, stably.
fn sort_arc_list(v: Vec<Arc>) -> (r: Vec<Arc>)
    ensures
        arcs_view(r@) == sort_arcs(arcs_view(v@)),
{
    let n = v.len();
    let mut out: Vec<Arc> = Vec::new();
    for k in 0..n
        invariant
            n == v.len(),
            arcs_view(out@) == sort_arcs(arcs_view(v@).take(k as int)),
    {
        let x = Arc { from: v[k].from.clone(), to: v[k].to.clone(), order: v[k].order };
        proof {
            assert(x@ == arcs_view(v@)[k as int]);
        }
        let mut idx: usize = 0;
        while idx < out.len() && out[idx].order <= x.order
            invariant
                idx <= out.len(),
                forall|p: int|
                    0 <= p < idx ==> (#[trigger] arcs_view(out@)[p]).order
                        <= x@.order,
            decreases out.len() - idx,
        {
            proof {
                assert(arcs_view(out@)[idx as int] == out@[idx as int]@);
            }
            idx = idx + 1;
        }
        let ghost before = arcs_view(out@);
        proof {
            if (idx as int) < before.len() {
                assert(before[idx as int] == out@[idx as int]@);
            }
            lemma_insert_arc_at(x@, before, idx as int);
        }
        out.insert(idx, x);
        proof {
            assert(arcs_view(out@) =~= before.subrange(0, idx as int) + seq![x@]
                + before.subrange(idx as int, before.len() as int));
            assert(arcs_view(v@).take(k + 1).drop_last() =~= arcs_view(v@).take(k as int));
            assert(arcs_view(v@).take(k + 1).last() == x@);
        }
    }
    proof {
        assert(arcs_view(v@).take(n as int) =~= arcs_view(v@));
    }
    out
}

/// Parses the bracketed notation. Returns the normalized graph, or `None` on
/// the first character that breaks the grammar, on an empty name, on an
/// order with no digits or beyond `i32::MAX`, or when the text ends in the
/// middle of a record.
pub fn parse_input(input: &str) -> (r: Option<Graph>)
    ensures
        match r {
            Some(g) => parse_spec(input@) == Some(g@),
            None => parse_spec(input@) is None,
        },
{
    let n = input.unicode_len();
    let mut mode = Mode::ExpectOpen;
    let mut from = String::new();
    let mut to = String::new();
    let mut acc: u32 = 0;
    let mut has_digit = false;
    let mut too_big = false;
    let mut verts: Vec<String> = Vec::new();
    let mut arcs: Vec<Arc> = Vec::new();
    let ghost mut gst = init_state();
    let mut i: usize = 0;
    while i < n
        invariant
            i <= n == input@.len(),
            run_to(input@, i as int) == Some(gst),
            mode == gst.mode,
            from@ == gst.from,
            to@ == gst.to,
            all_digits(gst.digits),
            has_digit == (gst.digits.len() > 0),
            too_big == (digits_val(gst.digits) > i32::MAX),
            !too_big ==> acc == digits_val(gst.digits),
            names_view(verts@) == gst.verts,
            arcs_view(arcs@) == gst.arcs,
        decreases n - i,
    {
        let c = input.get_char(i);
        if ws_char(c) {
            // skipped in every state
        } else {
            match mode {
                Mode::ExpectOpen => {
                    if c == '(' {
                        mode = Mode::ExpectFrom;
                    } else {
                        proof {
                            lemma_run_to_none_sticky(input@, i + 1, input@.len() as int);
                        }
                        return None;
                    }
                },
                Mode::ExpectFrom => {
                    if c == ',' {
                        if from.as_str().unicode_len() == 0 {
                            proof {
                                lemma_run_to_none_sticky(input@, i + 1, input@.len() as int);
                            }
                            return None;
                        }
                        mode = Mode::ExpectTo;
                    } else if alnum_char(c) {
                        append_char_from(&mut from, input, i);
                    } else {
                        proof {
                            lemma_run_to_none_sticky(input@, i + 1, input@.len() as int);
                        }
                        return None;
                    }
                },
                Mode::ExpectTo => {
                    if c == ',' {
                        if to.as_str().unicode_len() == 0 {
                            proof {
                                lemma_run_to_none_sticky(input@, i + 1, input@.len() as int);
                            }
                            return None;
                        }
                        mode = Mode::ExpectOrder;
                    } else if alnum_char(c) {
                        append_char_from(&mut to, input, i);
                    } else {
                        proof {
                            lemma_run_to_none_sticky(input@, i + 1, input@.len() as int);
                        }
                        return None;
                    }
                },
                Mode::ExpectOrder => {
                    if c == ')' {
                        if !has_digit || too_big {
                            proof {
                                lemma_run_to_none_sticky(input@, i + 1, input@.len() as int);
                            }
                            return None;
                        }
                        proof {
                            lemma_digits_val_nonneg(gst.digits);
                        }
                        let a = Arc {
                            from: from.clone(),
                            to: to.clone(),
                            order: acc as i32,
                        };
                        arcs.push(a);
                        let f = from;
                        let t = to;
                        push_vertex(&mut verts, f);
                        push_vertex(&mut verts, t);
                        from = String::new();
                        to = String::new();
                        acc = 0;
                        has_digit = false;
                        too_big = false;
                        mode = Mode::ExpectComma;
                        proof {
                            assert(arcs_view(arcs@) =~= gst.arcs.push(
                                ArcM {
                                    from: gst.from,
                                    to: gst.to,
                                    order: digits_val(gst.digits),
                                },
                            ));
                        }
                    } else if digit_char(c) {
                        let d = (c as u32) - 48;
                        has_digit = true;
                        proof {
                            lemma_digits_val_nonneg(gst.digits);
                            lemma_digits_val_grows(gst.digits.push(c));
                            assert(gst.digits.push(c).drop_last() =~= gst.digits);
                        }
                        if too_big {
                            proof {
                                assert(digits_val(gst.digits) * 10 + digit_val(c) > i32::MAX)
                                    by (nonlinear_arith)
                                    requires
                                        digits_val(gst.digits) > i32::MAX,
                                        digit_val(c) >= 0,
                                ;
                            }
                        } else {
                            let wide: u64 = (acc as u64) * 10 + (d as u64);
                            if wide > 2147483647u64 {
                                too_big = true;
                            } else {
                                acc = wide as u32;
                            }
                        }
                    } else {
                        proof {
                            lemma_run_to_none_sticky(input@, i + 1, input@.len() as int);
                        }
                        return None;
                    }
                },
                Mode::ExpectComma => {
                    if c == ',' {
                        mode = Mode::ExpectOpen;
                    } else {
                        proof {
                            lemma_run_to_none_sticky(input@, i + 1, input@.len() as int);
                        }
                        return None;
                    }
                },
            }
        }
        proof {
            gst = step(gst, input@[i as int]).unwrap();
        }
        i = i + 1;
    }
    if !matches!(mode, Mode::ExpectOpen) {
        return None;
    }
    let sorted_verts = sort_strings(verts);
    let sorted_arcs = sort_arc_list(arcs);
    let g = Graph { vertices: sorted_verts, arcs: sorted_arcs };
    proof {
        assert(g@.verts == sort_strs(gst.verts));
        assert(g@.arcs == sort_arcs(gst.arcs));
    }
    Some(g)
}


/// The machine run over `s[i..j]` from an arbitrary state.
pub open spec fn run_frag(st: ParseState, s: Seq<char>, i: int, j: int) -> Option<ParseState>
    decreases j - i,
{
    if j <= i {
        Some(st)
    } else {
        match run_frag(st, s, i, j - 1) {
            Some(m) => step(m, s[j - 1]),
            None => None,
        }
    }
}

proof fn lemma_run_to_is_frag(s: Seq<char>, j: int)
    requires
        0 <= j,
    ensures
        run_to(s, j) == run_frag(init_state(), s, 0, j),
    decreases j,
{
    if j > 0 {
        lemma_run_to_is_frag(s, j - 1);
    }
}

/// A run splits at any midpoint.
proof fn lemma_frag_split(st: ParseState, s: Seq<char>, i: int, k: int, j: int)
    requires
        i <= k <= j,
    ensures
        run_frag(st, s, i, j) == (match run_frag(st, s, i, k) {
            Some(m) => run_frag(m, s, k, j),
            None => None,
        }),
    decreases j - k,
{
    if j > k {
        lemma_frag_split(st, s, i, k, j - 1);
    }
}

/// A run reads only the characters between its bounds.
proof fn lemma_frag_local(st: ParseState, s1: Seq<char>, i1: int, s2: Seq<char>, i2: int, len: int)
    requires
        0 <= len,
        0 <= i1,
        i1 + len <= s1.len(),
        0 <= i2,
        i2 + len <= s2.len(),
        forall|k: int| 0 <= k < len ==> s1[i1 + k] == #[trigger] s2[i2 + k],
    ensures
        run_frag(st, s1, i1, i1 + len) == run_frag(st, s2, i2, i2 + len),
    decreases len,
{
    if len > 0 {
        lemma_frag_local(st, s1, i1, s2, i2, len - 1);
        assert(s1[i1 + (len - 1)] == s2[i2 + (len - 1)]);
    }
}

/// Alphanumeric characters accumulate into the first name.
proof fn lemma_run_from_chars(st: ParseState, s: Seq<char>, i: int, j: int)
    requires
        0 <= i <= j <= s.len(),
        st.mode == Mode::ExpectFrom,
        forall|k: int| i <= k < j ==> is_alnum_char(#[trigger] s[k]),
    ensures
        run_frag(st, s, i, j) == Some(ParseState { from: st.from + s.subrange(i, j), ..st }),
    decreases j - i,
{
    if j == i {
        assert(st.from + s.subrange(i, i) =~= st.from);
        assert(ParseState { from: st.from + s.subrange(i, j), ..st } =~= st);
    } else {
        lemma_run_from_chars(st, s, i, j - 1);
        let c = s[j - 1];
        assert(is_alnum_char(c));
        assert((st.from + s.subrange(i, j - 1)).push(c) =~= st.from + s.subrange(i, j));
        assert(ParseState { from: (st.from + s.subrange(i, j - 1)).push(c), ..st }
            =~= ParseState { from: st.from + s.subrange(i, j), ..st });
    }
}

/// Alphanumeric characters accumulate into the second name.
proof fn lemma_run_to_chars(st: ParseState, s: Seq<char>, i: int, j: int)
    requires
        0 <= i <= j <= s.len(),
        st.mode == Mode::ExpectTo,
        forall|k: int| i <= k < j ==> is_alnum_char(#[trigger] s[k]),
    ensures
        run_frag(st, s, i, j) == Some(ParseState { to: st.to + s.subrange(i, j), ..st }),
    decreases j - i,
{
    if j == i {
        assert(st.to + s.subrange(i, i) =~= st.to);
        assert(ParseState { to: st.to + s.subrange(i, j), ..st } =~= st);
    } else {
        lemma_run_to_chars(st, s, i, j - 1);
        let c = s[j - 1];
        assert(is_alnum_char(c));
        assert((st.to + s.subrange(i, j - 1)).push(c) =~= st.to + s.subrange(i, j));
        assert(ParseState { to: (st.to + s.subrange(i, j - 1)).push(c), ..st }
            =~= ParseState { to: st.to + s.subrange(i, j), ..st });
    }
}

/// Digits accumulate into the order field.
proof fn lemma_run_digit_chars(st: ParseState, s: Seq<char>, i: int, j: int)
    requires
        0 <= i <= j <= s.len(),
        st.mode == Mode::ExpectOrder,
        forall|k: int| i <= k < j ==> is_digit_char(#[trigger] s[k]),
    ensures
        run_frag(st, s, i, j) == Some(
            ParseState { digits: st.digits + s.subrange(i, j), ..st },
        ),
    decreases j - i,
{
    if j == i {
        assert(st.digits + s.subrange(i, i) =~= st.digits);
        assert(ParseState { digits: st.digits + s.subrange(i, j), ..st } =~= st);
    } else {
        lemma_run_digit_chars(st, s, i, j - 1);
        let c = s[j - 1];
        assert(is_digit_char(c));
        assert((st.digits + s.subrange(i, j - 1)).push(c) =~= st.digits + s.subrange(i, j));
        assert(ParseState { digits: (st.digits + s.subrange(i, j - 1)).push(c), ..st }
            =~= ParseState { digits: st.digits + s.subrange(i, j), ..st });
    }
}

/// A boundary state with the given committed material.
pub open spec fn boundary_state(verts: Seq<Seq<char>>, arcs: Seq<ArcM>) -> ParseState {
    ParseState {
        mode: Mode::ExpectOpen,
        from: Seq::empty(),
        to: Seq::empty(),
        digits: Seq::empty(),
        verts: verts,
        arcs: arcs,
    }
}

/// The machine sits between records with nothing half-read.
pub open spec fn at_boundary(st: ParseState) -> bool {
    &&& st.mode == Mode::ExpectOpen
    &&& st.from.len() == 0
    &&& st.to.len() == 0
    &&& st.digits.len() == 0
}

/// An arc the notation can express.
pub open spec fn arc_expressible(a: ArcM) -> bool {
    &&& crate::strutil::is_name(a.from)
    &&& crate::strutil::is_name(a.to)
    &&& 0 <= a.order <= i32::MAX
}

pub open spec fn arcs_expressible(arcs: Seq<ArcM>) -> bool {
    forall|k: int| 0 <= k < arcs.len() ==> arc_expressible(#[trigger] arcs[k])
}

/// The boundary state after one more record.
pub open spec fn after_record(st: ParseState, a: ArcM) -> ParseState {
    ParseState {
        mode: Mode::ExpectOpen,
        from: Seq::empty(),
        to: Seq::empty(),
        digits: Seq::empty(),
        verts: insert_vertex(insert_vertex(st.verts, a.from), a.to),
        arcs: st.arcs.push(a),
    }
}

/// From a record boundary, the machine consumes one record and commits
/// exactly its arc.
proof fn lemma_run_record(st: ParseState, a: ArcM)
    requires
        at_boundary(st),
        arc_expressible(a),
    ensures
        run_frag(st, record_of(a), 0, record_of(a).len() as int) == Some(after_record(st, a)),
{
    reveal_with_fuel(run_frag, 2);
    let r = record_of(a);
    let ds = crate::strutil::dec_digits(a.order as nat);
    crate::strutil::lemma_dec_digits_are_digits(a.order as nat);
    crate::strutil::lemma_dec_digits_val(a.order as nat);
    let fl = a.from.len() as int;
    let tl = a.to.len() as int;
    let dl = ds.len() as int;
    let i2 = 1 + fl;
    let i3 = i2 + 1;
    let i4 = i3 + tl;
    let i5 = i4 + 1;
    let i6 = i5 + dl;
    let i7 = i6 + 1;
    let i8 = i7 + 1;
    assert(r.len() == i8);
    assert(r[0] == '(');
    assert(forall|k: int| 0 <= k < fl ==> r[1 + k] == a.from[k]);
    assert(r[i2] == ',');
    assert(forall|k: int| 0 <= k < tl ==> r[i3 + k] == a.to[k]);
    assert(r[i4] == ',');
    assert(forall|k: int| 0 <= k < dl ==> r[i5 + k] == ds[k]);
    assert(r[i6] == ')');
    assert(r[i7] == ',');

    let st1 = ParseState { mode: Mode::ExpectFrom, ..st };
    assert(run_frag(st, r, 0, 1) == Some(st1));

    lemma_run_from_chars(st1, r, 1, i2);
    let st2 = ParseState { from: a.from, ..st1 };
    assert(st1.from + r.subrange(1, i2) =~= a.from) by {
        assert(forall|k: int| 0 <= k < fl ==> r.subrange(1, i2)[k] == a.from[k]);
    }
    assert(run_frag(st1, r, 1, i2) == Some(st2)) by {
        assert(ParseState { from: st1.from + r.subrange(1, i2), ..st1 } =~= st2);
    }

    let st3 = ParseState { mode: Mode::ExpectTo, ..st2 };
    assert(run_frag(st2, r, i2, i3) == Some(st3));

    lemma_run_to_chars(st3, r, i3, i4);
    let st4 = ParseState { to: a.to, ..st3 };
    assert(st3.to + r.subrange(i3, i4) =~= a.to) by {
        assert(forall|k: int| 0 <= k < tl ==> r.subrange(i3, i4)[k] == a.to[k]);
    }
    assert(run_frag(st3, r, i3, i4) == Some(st4)) by {
        assert(ParseState { to: st3.to + r.subrange(i3, i4), ..st3 } =~= st4);
    }

    let st5 = ParseState { mode: Mode::ExpectOrder, ..st4 };
    assert(run_frag(st4, r, i4, i5) == Some(st5));

    lemma_run_digit_chars(st5, r, i5, i6);
    let st6 = ParseState { digits: ds, ..st5 };
    assert(st5.digits + r.subrange(i5, i6) =~= ds) by {
        assert(forall|k: int| 0 <= k < dl ==> r.subrange(i5, i6)[k] == ds[k]);
    }
    assert(run_frag(st5, r, i5, i6) == Some(st6)) by {
        assert(ParseState { digits: st5.digits + r.subrange(i5, i6), ..st5 } =~= st6);
    }

    let st7 = commit_arc(st6);
    assert(run_frag(st6, r, i6, i7) == Some(st7)) by {
        assert(digits_val(st6.digits) == a.order);
    }

    let st8 = ParseState { mode: Mode::ExpectOpen, ..st7 };
    assert(run_frag(st7, r, i7, i8) == Some(st8));

    assert(st8 =~= after_record(st, a)) by {
        assert(st6.from == a.from && st6.to == a.to);
        assert(st7.arcs =~= st.arcs.push(a)) by {
            assert(ArcM { from: a.from, to: a.to, order: digits_val(ds) } =~= a);
        }
    }

    lemma_frag_split(st, r, 0, 1, i8);
    lemma_frag_split(st1, r, 1, i2, i8);
    lemma_frag_split(st2, r, i2, i3, i8);
    lemma_frag_split(st3, r, i3, i4, i8);
    lemma_frag_split(st4, r, i4, i5, i8);
    lemma_frag_split(st5, r, i5, i6, i8);
    lemma_frag_split(st6, r, i6, i7, i8);
}

/// The vertex list after registering every endpoint of an arc list.
pub open spec fn verts_after(vs: Seq<Seq<char>>, arcs: Seq<ArcM>) -> Seq<Seq<char>>
    decreases arcs.len(),
{
    if arcs.len() == 0 {
        vs
    } else {
        insert_vertex(
            insert_vertex(verts_after(vs, arcs.drop_last()), arcs.last().from),
            arcs.last().to,
        )
    }
}

/// From a record boundary, the machine consumes the whole notation of an
/// arc list and commits exactly those arcs, in order.
proof fn lemma_run_notation(st: ParseState, arcs: Seq<ArcM>)
    requires
        at_boundary(st),
        arcs_expressible(arcs),
    ensures
        run_frag(st, notation_of(arcs), 0, notation_of(arcs).len() as int) == Some(
            boundary_state(verts_after(st.verts, arcs), st.arcs + arcs),
        ),
    decreases arcs.len(),
{
    let t = notation_of(arcs);
    if arcs.len() == 0 {
        assert(st.arcs + arcs =~= st.arcs);
        assert(boundary_state(verts_after(st.verts, arcs), st.arcs + arcs) =~= st);
    } else {
        let pre = arcs.drop_last();
        let a = arcs.last();
        assert(arcs_expressible(pre)) by {
            assert(forall|k: int| 0 <= k < pre.len() ==> pre[k] == arcs[k]);
        }
        lemma_run_notation(st, pre);
        let t1 = notation_of(pre);
        let r = record_of(a);
        assert(t == t1 + r);
        let mid = boundary_state(verts_after(st.verts, pre), st.arcs + pre);
        assert(forall|k: int| 0 <= k < t1.len() ==> t[k] == t1[k]);
        lemma_frag_local(st, t1, 0, t, 0, t1.len() as int);
        assert(run_frag(st, t, 0, t1.len() as int) == Some(mid));
        lemma_run_record(mid, a);
        assert(forall|k: int| 0 <= k < r.len() ==> t[t1.len() + k] == r[k]);
        lemma_frag_local(mid, r, 0, t, t1.len() as int, r.len() as int);
        lemma_frag_split(st, t, 0, t1.len() as int, t.len() as int);
        assert(after_record(mid, a) =~= boundary_state(
            verts_after(st.verts, arcs),
            st.arcs + arcs,
        )) by {
            assert((st.arcs + pre).push(a) =~= st.arcs + arcs);
        }
    }
}


/// The set of names an arc list mentions as an endpoint.
pub open spec fn endpoint_set(arcs: Seq<ArcM>) -> Set<Seq<char>>
    decreases arcs.len(),
{
    if arcs.len() == 0 {
        Set::empty()
    } else {
        endpoint_set(arcs.drop_last()).insert(arcs.last().from).insert(arcs.last().to)
    }
}

proof fn lemma_endpoint_set_contains(arcs: Seq<ArcM>, n: Seq<char>)
    ensures
        endpoint_set(arcs).contains(n) <==> (exists|j: int|
            0 <= j < arcs.len() && ((#[trigger] arcs[j]).from == n || arcs[j].to == n)),
    decreases arcs.len(),
{
    if arcs.len() > 0 {
        lemma_endpoint_set_contains(arcs.drop_last(), n);
        let pre = arcs.drop_last();
        assert(forall|j: int| 0 <= j < pre.len() ==> pre[j] == arcs[j]);
        if endpoint_set(arcs).contains(n) {
            if endpoint_set(pre).contains(n) {
                let j = choose|j: int|
                    0 <= j < pre.len() && ((#[trigger] pre[j]).from == n || pre[j].to == n);
                assert(arcs[j].from == n || arcs[j].to == n);
            } else {
                assert(arcs[arcs.len() - 1].from == n || arcs[arcs.len() - 1].to == n);
            }
        }
        if exists|j: int| 0 <= j < arcs.len() && ((#[trigger] arcs[j]).from == n || arcs[j].to
            == n) {
            let j = choose|j: int|
                0 <= j < arcs.len() && ((#[trigger] arcs[j]).from == n || arcs[j].to == n);
            if j < arcs.len() - 1 {
                assert(pre[j].from == n || pre[j].to == n);
            }
        }
    }
}

proof fn lemma_insert_vertex_set(vs: Seq<Seq<char>>, x: Seq<char>)
    ensures
        insert_vertex(vs, x).to_set() == vs.to_set().insert(x),
{
    if vs.contains(x) {
        assert(insert_vertex(vs, x).to_set() =~= vs.to_set().insert(x));
    } else {
        assert forall|y: Seq<char>| #![auto] vs.push(x).contains(y) implies (vs.contains(y) || y
            == x) by {
            let i = choose|i: int| 0 <= i < vs.push(x).len() && vs.push(x)[i] == y;
            if i < vs.len() {
                assert(vs[i] == y);
            }
        }
        assert forall|y: Seq<char>| #![auto] vs.contains(y) || y == x implies vs.push(
            x,
        ).contains(y) by {
            if vs.contains(y) {
                let i = choose|i: int| 0 <= i < vs.len() && vs[i] == y;
                assert(vs.push(x)[i] == y);
            } else {
                assert(vs.push(x)[vs.len() as int] == y);
            }
        }
        assert(insert_vertex(vs, x).to_set() =~= vs.to_set().insert(x));
    }
}

proof fn lemma_insert_vertex_nodup(vs: Seq<Seq<char>>, x: Seq<char>)
    requires
        vs.no_duplicates(),
    ensures
        insert_vertex(vs, x).no_duplicates(),
{
    if !vs.contains(x) {
        let out = vs.push(x);
        assert forall|i: int, j: int| 0 <= i < j < out.len() implies out[i] != out[j] by {
            if j < vs.len() {
                assert(out[i] == vs[i] && out[j] == vs[j]);
            } else {
                assert(out[j] == x && out[i] == vs[i]);
                if vs[i] == x {
                    assert(vs.contains(x));
                }
            }
        }
    }
}

proof fn lemma_verts_after_set(vs: Seq<Seq<char>>, arcs: Seq<ArcM>)
    ensures
        verts_after(vs, arcs).to_set() == vs.to_set().union(endpoint_set(arcs)),
    decreases arcs.len(),
{
    if arcs.len() == 0 {
        assert(verts_after(vs, arcs).to_set() =~= vs.to_set().union(endpoint_set(arcs)));
    } else {
        lemma_verts_after_set(vs, arcs.drop_last());
        let mid = verts_after(vs, arcs.drop_last());
        lemma_insert_vertex_set(mid, arcs.last().from);
        lemma_insert_vertex_set(insert_vertex(mid, arcs.last().from), arcs.last().to);
        assert(verts_after(vs, arcs).to_set() =~= vs.to_set().union(endpoint_set(arcs)));
    }
}

/// Sorting the vertex names keeps the set of names.
proof fn lemma_insert_str_contains(x: Seq<char>, s: Seq<Seq<char>>, y: Seq<char>)
    ensures
        insert_str_sorted(x, s).contains(y) <==> (s.contains(y) || y == x),
    decreases s.len(),
{
    let out = insert_str_sorted(x, s);
    if s.len() == 0 {
        assert(out[0] == x);
        if out.contains(y) {
            let i = choose|i: int| 0 <= i < out.len() && out[i] == y;
            assert(i == 0);
        }
    } else if str_lt(s[0], x) {
        lemma_insert_str_contains(x, s.drop_first(), y);
        let rest = insert_str_sorted(x, s.drop_first());
        assert(out == seq![s[0]] + rest);
        if out.contains(y) {
            let i = choose|i: int| 0 <= i < out.len() && out[i] == y;
            if i == 0 {
                assert(s[0] == y);
            } else {
                assert(rest[i - 1] == y);
                assert(rest.contains(y));
                if s.drop_first().contains(y) {
                    let j = choose|j: int|
                        0 <= j < s.drop_first().len() && s.drop_first()[j] == y;
                    assert(s[j + 1] == y);
                }
            }
        }
        if s.contains(y) {
            let i = choose|i: int| 0 <= i < s.len() && s[i] == y;
            if i == 0 {
                assert(out[0] == y);
            } else {
                assert(s.drop_first()[i - 1] == y);
                assert(s.drop_first().contains(y));
                assert(rest.contains(y));
                let j = choose|j: int| 0 <= j < rest.len() && rest[j] == y;
                assert(out[j + 1] == y);
            }
        }
        if y == x {
            assert(rest.contains(y));
            let j = choose|j: int| 0 <= j < rest.len() && rest[j] == y;
            assert(out[j + 1] == y);
        }
    } else {
        assert(out == seq![x] + s);
        if out.contains(y) {
            let i = choose|i: int| 0 <= i < out.len() && out[i] == y;
            if i > 0 {
                assert(s[i - 1] == y);
            }
        }
        if s.contains(y) {
            let i = choose|i: int| 0 <= i < s.len() && s[i] == y;
            assert(out[i + 1] == y);
        }
        assert(out[0] == x);
    }
}

proof fn lemma_sort_strs_set(s: Seq<Seq<char>>)
    ensures
        sort_strs(s).to_set() == s.to_set(),
    decreases s.len(),
{
    if s.len() > 0 {
        lemma_sort_strs_set(s.drop_last());
        assert forall|y: Seq<char>| #![auto] sort_strs(s).contains(y) <==> s.contains(y) by {
            lemma_insert_str_contains(s.last(), sort_strs(s.drop_last()), y);
            if s.drop_last().contains(y) {
                let i = choose|i: int| 0 <= i < s.drop_last().len() && s.drop_last()[i] == y;
                assert(s[i] == y);
            }
            if s.contains(y) {
                let i = choose|i: int| 0 <= i < s.len() && s[i] == y;
                if i < s.len() - 1 {
                    assert(s.drop_last()[i] == y);
                }
            }
            assert(sort_strs(s.drop_last()).contains(y) == s.drop_last().to_set().contains(y));
        }
        assert(sort_strs(s).to_set() =~= s.to_set());
    } else {
        assert(sort_strs(s).to_set() =~= s.to_set());
    }
}

/// Sorting the names keeps the multiset of names.
proof fn lemma_insert_str_multiset(x: Seq<char>, s: Seq<Seq<char>>)
    ensures
        insert_str_sorted(x, s).to_multiset() == s.to_multiset().insert(x),
    decreases s.len(),
{
    broadcast use vstd::seq_lib::group_to_multiset_ensures;
    broadcast use vstd::multiset::group_multiset_axioms;
    broadcast use vstd::seq_lib::lemma_multiset_commutative;

    if s.len() == 0 {
        assert(s.to_multiset() =~= vstd::multiset::Multiset::<Seq<char>>::empty());
        assert(seq![x] =~= Seq::<Seq<char>>::empty().push(x));
        assert(insert_str_sorted(x, s).to_multiset() =~= s.to_multiset().insert(x));
    } else if str_lt(s[0], x) {
        lemma_insert_str_multiset(x, s.drop_first());
        let rest = insert_str_sorted(x, s.drop_first());
        assert(insert_str_sorted(x, s) == seq![s[0]] + rest);
        assert(s =~= seq![s[0]] + s.drop_first());
        assert(seq![s[0]] =~= Seq::<Seq<char>>::empty().push(s[0]));
        assert((seq![s[0]] + rest).to_multiset() =~= seq![s[0]].to_multiset().add(
            rest.to_multiset(),
        ));
        assert((seq![s[0]] + s.drop_first()).to_multiset() =~= seq![s[0]].to_multiset().add(
            s.drop_first().to_multiset(),
        ));
        assert(insert_str_sorted(x, s).to_multiset() =~= s.to_multiset().insert(x));
    } else {
        assert(insert_str_sorted(x, s) == seq![x] + s);
        assert(seq![x] =~= Seq::<Seq<char>>::empty().push(x));
        assert((seq![x] + s).to_multiset() =~= seq![x].to_multiset().add(s.to_multiset()));
        assert(insert_str_sorted(x, s).to_multiset() =~= s.to_multiset().insert(x));
    }
}

proof fn lemma_sort_strs_multiset(s: Seq<Seq<char>>)
    ensures
        sort_strs(s).to_multiset() == s.to_multiset(),
    decreases s.len(),
{
    broadcast use vstd::seq_lib::group_to_multiset_ensures;
    broadcast use vstd::multiset::group_multiset_axioms;

    if s.len() > 0 {
        lemma_sort_strs_multiset(s.drop_last());
        lemma_insert_str_multiset(s.last(), sort_strs(s.drop_last()));
        assert(s =~= s.drop_last().push(s.last()));
        assert(s.to_multiset() =~= s.drop_last().to_multiset().insert(s.last()));
    }
}

/// Sorting the arcs keeps the multiset of arcs.
proof fn lemma_insert_arc_multiset(x: ArcM, s: Seq<ArcM>)
    ensures
        insert_arc_sorted(x, s).to_multiset() == s.to_multiset().insert(x),
    decreases s.len(),
{
    broadcast use vstd::seq_lib::group_to_multiset_ensures;
    broadcast use vstd::multiset::group_multiset_axioms;
    broadcast use vstd::seq_lib::lemma_multiset_commutative;

    if s.len() == 0 {
        assert(s.to_multiset() =~= vstd::multiset::Multiset::<ArcM>::empty());
        assert(seq![x] =~= Seq::<ArcM>::empty().push(x));
        assert(insert_arc_sorted(x, s).to_multiset() =~= s.to_multiset().insert(x));
    } else if s[0].order <= x.order {
        lemma_insert_arc_multiset(x, s.drop_first());
        let rest = insert_arc_sorted(x, s.drop_first());
        assert(insert_arc_sorted(x, s) == seq![s[0]] + rest);
        assert(s =~= seq![s[0]] + s.drop_first());
        assert(seq![s[0]] =~= Seq::<ArcM>::empty().push(s[0]));
        assert((seq![s[0]] + rest).to_multiset() =~= seq![s[0]].to_multiset().add(
            rest.to_multiset(),
        ));
        assert((seq![s[0]] + s.drop_first()).to_multiset() =~= seq![s[0]].to_multiset().add(
            s.drop_first().to_multiset(),
        ));
        assert(insert_arc_sorted(x, s).to_multiset() =~= s.to_multiset().insert(x));
    } else {
        assert(insert_arc_sorted(x, s) == seq![x] + s);
        assert(seq![x] =~= Seq::<ArcM>::empty().push(x));
        assert((seq![x] + s).to_multiset() =~= seq![x].to_multiset().add(s.to_multiset()));
        assert(insert_arc_sorted(x, s).to_multiset() =~= s.to_multiset().insert(x));
    }
}

proof fn lemma_sort_arcs_multiset(s: Seq<ArcM>)
    ensures
        sort_arcs(s).to_multiset() == s.to_multiset(),
    decreases s.len(),
{
    broadcast use vstd::seq_lib::group_to_multiset_ensures;
    broadcast use vstd::multiset::group_multiset_axioms;

    if s.len() > 0 {
        lemma_sort_arcs_multiset(s.drop_last());
        lemma_insert_arc_multiset(s.last(), sort_arcs(s.drop_last()));
        assert(s =~= s.drop_last().push(s.last()));
        assert(s.to_multiset() =~= s.drop_last().to_multiset().insert(s.last()));
    }
}

/// What every reachable machine state satisfies: the half-read fields fit
/// the grammar, every committed arc is expressible, and the vertex list
/// holds exactly the endpoints of the committed arcs.
pub open spec fn state_wf(st: ParseState) -> bool {
    &&& forall|k: int| 0 <= k < st.from.len() ==> is_alnum_char(#[trigger] st.from[k])
    &&& forall|k: int| 0 <= k < st.to.len() ==> is_alnum_char(#[trigger] st.to[k])
    &&& all_digits(st.digits)
    &&& (st.mode == Mode::ExpectTo ==> st.from.len() > 0)
    &&& (st.mode == Mode::ExpectOrder ==> st.from.len() > 0 && st.to.len() > 0)
    &&& arcs_expressible(st.arcs)
    &&& st.verts.no_duplicates()
    &&& st.verts.to_set() == endpoint_set(st.arcs)
}

proof fn lemma_run_to_wf(s: Seq<char>, i: int)
    requires
        0 <= i,
    ensures
        run_to(s, i) matches Some(st) ==> state_wf(st),
    decreases i,
{
    if i == 0 {
        assert(init_state().verts.to_set() =~= endpoint_set(init_state().arcs));
    } else {
        lemma_run_to_wf(s, i - 1);
        if run_to(s, i) is Some {
            let st = run_to(s, i - 1).unwrap();
            let st2 = run_to(s, i).unwrap();
            let c = s[i - 1];
            assert(step(st, c) == Some(st2));
            if !is_ws_char(c) {
                match st.mode {
                    Mode::ExpectFrom => {
                        if c != ',' {
                            assert(forall|k: int|
                                0 <= k < st.from.len() ==> st.from.push(c)[k] == st.from[k]);
                        }
                    },
                    Mode::ExpectTo => {
                        if c != ',' {
                            assert(forall|k: int|
                                0 <= k < st.to.len() ==> st.to.push(c)[k] == st.to[k]);
                        }
                    },
                    Mode::ExpectOrder => {
                        if c == ')' {
                            lemma_digits_val_nonneg(st.digits);
                            let a = ArcM {
                                from: st.from,
                                to: st.to,
                                order: digits_val(st.digits),
                            };
                            assert(arc_expressible(a));
                            assert(arcs_expressible(st.arcs.push(a))) by {
                                assert(forall|k: int|
                                    0 <= k < st.arcs.len() ==> st.arcs.push(a)[k]
                                        == st.arcs[k]);
                                assert(st.arcs.push(a)[st.arcs.len() as int] == a);
                            }
                            lemma_insert_vertex_set(st.verts, st.from);
                            lemma_insert_vertex_set(insert_vertex(st.verts, st.from), st.to);
                            lemma_insert_vertex_nodup(st.verts, st.from);
                            lemma_insert_vertex_nodup(insert_vertex(st.verts, st.from), st.to);
                            assert(st.arcs.push(a).drop_last() =~= st.arcs);
                            assert(st2.verts.to_set() =~= endpoint_set(st2.arcs));
                        } else {
                            assert(all_digits(st.digits.push(c))) by {
                                assert(forall|k: int|
                                    0 <= k < st.digits.len() ==> st.digits.push(c)[k]
                                        == st.digits[k]);
                            }
                        }
                    },
                    _ => {},
                }
            }
        }
    }
}

/// Two arc lists with the same multiset hold the same arcs.
proof fn lemma_multiset_contains_transfer(a: Seq<ArcM>, b: Seq<ArcM>, x: ArcM)
    requires
        a.to_multiset() == b.to_multiset(),
        a.contains(x),
    ensures
        b.contains(x),
{
    broadcast use vstd::seq_lib::group_to_multiset_ensures;

    assert(a.to_multiset().count(x) > 0);
    assert(b.to_multiset().count(x) > 0);
}

/// Parsing a text, serializing the arcs of the result, and parsing again
/// yields the same vertex set and the same arc multiset: the notation round
/// trip loses nothing.
pub proof fn lemma_parse_round_trip(s: Seq<char>, g: GraphM)
    requires
        parse_spec(s) == Some(g),
    ensures
        parse_spec(notation_of(g.arcs)) matches Some(g2) && g2.verts.to_set()
            == g.verts.to_set() && g2.arcs.to_multiset() == g.arcs.to_multiset(),
{
    broadcast use vstd::seq_lib::group_to_multiset_ensures;
    broadcast use vstd::multiset::group_multiset_axioms;

    let st0 = run_to(s, s.len() as int).unwrap();
    lemma_run_to_wf(s, s.len() as int);
    lemma_sort_arcs_multiset(st0.arcs);
    assert(arcs_expressible(g.arcs)) by {
        assert forall|k: int| 0 <= k < g.arcs.len() implies arc_expressible(
            #[trigger] g.arcs[k],
        ) by {
            assert(g.arcs.contains(g.arcs[k]));
            lemma_multiset_contains_transfer(g.arcs, st0.arcs, g.arcs[k]);
            let j = choose|j: int| 0 <= j < st0.arcs.len() && st0.arcs[j] == g.arcs[k];
            assert(arc_expressible(st0.arcs[j]));
        }
    }
    let t = notation_of(g.arcs);
    lemma_run_notation(init_state(), g.arcs);
    lemma_run_to_is_frag(t, t.len() as int);
    let fin = boundary_state(verts_after(init_state().verts, g.arcs), init_state().arcs + g.arcs);
    assert(run_to(t, t.len() as int) == Some(fin));
    assert(fin.arcs =~= g.arcs);
    let g2 = GraphM { verts: sort_strs(fin.verts), arcs: sort_arcs(fin.arcs) };
    assert(parse_spec(t) == Some(g2));

    // arc multisets agree
    lemma_sort_arcs_multiset(fin.arcs);

    // vertex sets agree: both sides hold exactly the endpoints of the arcs
    lemma_sort_strs_set(fin.verts);
    lemma_verts_after_set(init_state().verts, g.arcs);
    assert(init_state().verts.to_set() =~= Set::<Seq<char>>::empty());
    assert(fin.verts.to_set() =~= endpoint_set(g.arcs));
    lemma_sort_strs_set(st0.verts);
    assert(g.verts.to_set() == st0.verts.to_set());
    assert(st0.verts.to_set() == endpoint_set(st0.arcs));
    assert(endpoint_set(g.arcs) =~= endpoint_set(st0.arcs)) by {
        assert forall|n: Seq<char>| #![auto] endpoint_set(g.arcs).contains(n) <==> endpoint_set(
            st0.arcs,
        ).contains(n) by {
            lemma_endpoint_set_contains(g.arcs, n);
            lemma_endpoint_set_contains(st0.arcs, n);
            if exists|j: int|
                0 <= j < g.arcs.len() && ((#[trigger] g.arcs[j]).from == n || g.arcs[j].to
                    == n) {
                let j = choose|j: int|
                    0 <= j < g.arcs.len() && ((#[trigger] g.arcs[j]).from == n || g.arcs[j].to
                        == n);
                assert(g.arcs.contains(g.arcs[j]));
                lemma_multiset_contains_transfer(g.arcs, st0.arcs, g.arcs[j]);
                let i = choose|i: int| 0 <= i < st0.arcs.len() && st0.arcs[i] == g.arcs[j];
                assert(st0.arcs[i].from == n || st0.arcs[i].to == n);
            }
            if exists|j: int|
                0 <= j < st0.arcs.len() && ((#[trigger] st0.arcs[j]).from == n
                    || st0.arcs[j].to == n) {
                let j = choose|j: int|
                    0 <= j < st0.arcs.len() && ((#[trigger] st0.arcs[j]).from == n
                        || st0.arcs[j].to == n);
                assert(st0.arcs.contains(st0.arcs[j]));
                lemma_multiset_contains_transfer(st0.arcs, g.arcs, st0.arcs[j]);
                let i = choose|i: int| 0 <= i < g.arcs.len() && g.arcs[i] == st0.arcs[j];
                assert(g.arcs[i].from == n || g.arcs[i].to == n);
            }
        }
    }
}


/// Strict lexicographic order is asymmetric.
proof fn lemma_str_lt_asym(a: Seq<char>, b: Seq<char>, i: int)
    requires
        0 <= i,
        crate::strutil::str_lt_from(a, b, i),
    ensures
        !crate::strutil::str_lt_from(b, a, i),
    decreases a.len() - i,
{
    if i < b.len() && i < a.len() && a[i] == b[i] {
        lemma_str_lt_asym(a, b, i + 1);
    }
}

/// Ascending adjacent order in a name list.
pub open spec fn strs_ascending(s: Seq<Seq<char>>) -> bool {
    forall|i: int| 0 <= i < s.len() - 1 ==> !str_lt(#[trigger] s[i + 1], s[i])
}

/// Ascending adjacent order in an arc list.
pub open spec fn arcs_ascending(s: Seq<ArcM>) -> bool {
    forall|i: int| 0 <= i < s.len() - 1 ==> (#[trigger] s[i]).order <= s[i + 1].order
}

proof fn lemma_insert_str_keeps_ascending(x: Seq<char>, s: Seq<Seq<char>>)
    requires
        strs_ascending(s),
    ensures
        strs_ascending(insert_str_sorted(x, s)),
    decreases s.len(),
{
    let out = insert_str_sorted(x, s);
    if s.len() == 0 {
        assert(strs_ascending(out));
    } else if str_lt(s[0], x) {
        assert(strs_ascending(s.drop_first())) by {
            assert(forall|i: int| 0 <= i < s.len() - 1 ==> s.drop_first()[i] == s[i + 1]);
        }
        lemma_insert_str_keeps_ascending(x, s.drop_first());
        let rest = insert_str_sorted(x, s.drop_first());
        assert(out == seq![s[0]] + rest);
        // the new head of the tail is either the old second element or `x`;
        // neither is below the head
        assert(rest.len() > 0);
        assert(rest[0] == x || (s.drop_first().len() > 0 && rest[0] == s.drop_first()[0]));
        assert(!str_lt(rest[0], s[0])) by {
            if rest[0] == x {
                lemma_str_lt_asym(s[0], x, 0);
            } else {
                assert(s.drop_first()[0] == s[1]);
            }
        }
        assert forall|i: int| 0 <= i < out.len() - 1 implies !str_lt(
            #[trigger] out[i + 1],
            out[i],
        ) by {
            if i == 0 {
                assert(out[1] == rest[0] && out[0] == s[0]);
            } else {
                assert(out[i] == rest[i - 1] && out[i + 1] == rest[i]);
                assert(rest[i - 1 + 1] == rest[i]);
            }
        }
    } else {
        assert(out == seq![x] + s);
        assert forall|i: int| 0 <= i < out.len() - 1 implies !str_lt(
            #[trigger] out[i + 1],
            out[i],
        ) by {
            if i == 0 {
                assert(out[1] == s[0] && out[0] == x);
            } else {
                assert(out[i] == s[i - 1] && out[i + 1] == s[i]);
                assert(s[i - 1 + 1] == s[i]);
            }
        }
    }
}

proof fn lemma_sort_strs_ascending(s: Seq<Seq<char>>)
    ensures
        strs_ascending(sort_strs(s)),
    decreases s.len(),
{
    if s.len() > 0 {
        lemma_sort_strs_ascending(s.drop_last());
        lemma_insert_str_keeps_ascending(s.last(), sort_strs(s.drop_last()));
    }
}

proof fn lemma_insert_arc_keeps_ascending(x: ArcM, s: Seq<ArcM>)
    requires
        arcs_ascending(s),
    ensures
        arcs_ascending(insert_arc_sorted(x, s)),
    decreases s.len(),
{
    let out = insert_arc_sorted(x, s);
    if s.len() == 0 {
        assert(arcs_ascending(out));
    } else if s[0].order <= x.order {
        assert(arcs_ascending(s.drop_first())) by {
            assert(forall|i: int| 0 <= i < s.len() - 1 ==> s.drop_first()[i] == s[i + 1]);
        }
        lemma_insert_arc_keeps_ascending(x, s.drop_first());
        let rest = insert_arc_sorted(x, s.drop_first());
        assert(out == seq![s[0]] + rest);
        assert(rest.len() > 0);
        assert(rest[0] == x || (s.drop_first().len() > 0 && rest[0] == s.drop_first()[0]));
        assert(s[0].order <= rest[0].order) by {
            if rest[0] != x {
                assert(s.drop_first()[0] == s[1]);
            }
        }
        assert forall|i: int| 0 <= i < out.len() - 1 implies (#[trigger] out[i]).order <= out[i
            + 1].order by {
            if i == 0 {
                assert(out[1] == rest[0] && out[0] == s[0]);
            } else {
                assert(out[i] == rest[i - 1] && out[i + 1] == rest[i]);
                assert(rest[i - 1 + 1] == rest[i]);
            }
        }
    } else {
        assert(out == seq![x] + s);
        assert forall|i: int| 0 <= i < out.len() - 1 implies (#[trigger] out[i]).order <= out[i
            + 1].order by {
            if i == 0 {
                assert(out[1] == s[0] && out[0] == x);
            } else {
                assert(out[i] == s[i - 1] && out[i + 1] == s[i]);
                assert(s[i - 1 + 1] == s[i]);
            }
        }
    }
}

proof fn lemma_sort_arcs_ascending(s: Seq<ArcM>)
    ensures
        arcs_ascending(sort_arcs(s)),
    decreases s.len(),
{
    if s.len() > 0 {
        lemma_sort_arcs_ascending(s.drop_last());
        lemma_insert_arc_keeps_ascending(s.last(), sort_arcs(s.drop_last()));
    }
}

/// What the parser normalizes to: the vertices come out in ascending
/// lexicographic order and the arcs in ascending order of their order
/// values.
pub proof fn lemma_parse_normalized(s: Seq<char>, g: GraphM)
    requires
        parse_spec(s) == Some(g),
    ensures
        strs_ascending(g.verts),
        names_unique(g.verts),
        arcs_ascending(g.arcs),
{
    broadcast use vstd::seq_lib::group_to_multiset_ensures;

    let st0 = run_to(s, s.len() as int).unwrap();
    lemma_sort_strs_ascending(st0.verts);
    lemma_sort_arcs_ascending(st0.arcs);
    lemma_run_to_wf(s, s.len() as int);
    lemma_sort_strs_multiset(st0.verts);
    st0.verts.lemma_multiset_has_no_duplicates();
    g.verts.lemma_multiset_has_no_duplicates_conv();
    assert(names_unique(g.verts)) by {
        assert(g.verts.no_duplicates());
    }
}

} // verus!
