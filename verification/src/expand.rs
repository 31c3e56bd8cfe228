//! Source bundling: expands an entrypoint module together with the
//! transitive closure of its internal imports into one flat text blob.
//!
//! An import directive such as `use crate::a::{b::C,d::E};` is scanned
//! character by character (white space already removed), maintaining a path
//! accumulator seeded with the project root marker `src/` and a stack of
//! saved accumulator lengths, one per open brace group. Every `,`, `;` or
//! `}` closes one leaf path, unless the previous character itself closed
//! one. Each leaf yields a file reference (its containing path plus the
//! `.rs` suffix) and a rewritten local import line.
use crate::text::{
    chars_eq, chars_to_string, is_prefix, is_ws, last_nonws, push_chars, remove_whitespace, rfind,
    rfind_char, spec_lines, split_lines, starts_with, str_to_chars, subvec, trimmed_ends_semicolon,
};
use vstd::prelude::*;

verus! {

/// State of the character scan over one import path expression.
pub struct ScanState {
    /// The path accumulator.
    pub cur: Seq<char>,
    /// Saved accumulator lengths, one per open brace group.
    pub stk: Seq<nat>,
    /// The leaf paths closed so far, in closing order.
    pub leaves: Seq<Seq<char>>,
    /// The previously scanned character (`'$'` at the start).
    pub last: char,
}

/// The accumulator seed: the project root marker as a directory prefix.
pub open spec fn root_seed() -> Seq<char> {
    seq!['s', 'r', 'c', '/']
}

pub open spec fn init_state() -> ScanState {
    ScanState { cur: root_seed(), stk: Seq::empty(), leaves: Seq::empty(), last: '$' }
}

/// `s` cut back to length `n`, when `n` is within range.
pub open spec fn trunc_to(s: Seq<char>, n: int) -> Seq<char> {
    if 0 <= n <= s.len() {
        s.take(n)
    } else {
        s
    }
}

/// One step of the scan.
pub open spec fn scan_step(st: ScanState, c: char) -> ScanState {
    if c == ':' {
        let cur = if st.cur.len() > 0 && st.cur[st.cur.len() - 1] == '/' {
            st.cur
        } else {
            st.cur.push('/')
        };
        ScanState { cur, last: c, ..st }
    } else if c == '{' {
        ScanState { stk: st.stk.push(st.cur.len()), last: c, ..st }
    } else if c == ',' || c == ';' || c == '}' {
        let leaves = if st.last != '}' && st.last != ',' {
            st.leaves.push(st.cur)
        } else {
            st.leaves
        };
        let cur = trunc_to(st.cur, if st.stk.len() > 0 {
            st.stk.last() as int
        } else {
            0
        });
        let stk = if c == '}' && st.stk.len() > 0 {
            st.stk.drop_last()
        } else {
            st.stk
        };
        ScanState { cur, stk, leaves, last: c }
    } else {
        ScanState { cur: st.cur.push(c), last: c, ..st }
    }
}

/// The scan folded over `s`, from the left.
pub open spec fn scan(st: ScanState, s: Seq<char>) -> ScanState
    decreases s.len(),
{
    if s.len() == 0 {
        st
    } else {
        scan(scan_step(st, s[0]), s.skip(1))
    }
}

pub proof fn lemma_scan_concat(st: ScanState, a: Seq<char>, b: Seq<char>)
    ensures
        scan(st, a + b) == scan(scan(st, a), b),
    decreases a.len(),
{
    if a.len() == 0 {
        assert(a + b =~= b);
    } else {
        assert((a + b).skip(1) =~= a.skip(1) + b);
        lemma_scan_concat(scan_step(st, a[0]), a.skip(1), b);
    }
}

pub proof fn lemma_scan_snoc(st: ScanState, a: Seq<char>, c: char)
    ensures
        scan(st, a.push(c)) == scan_step(scan(st, a), c),
{
    let s1 = seq![c];
    assert(a.push(c) =~= a + s1);
    lemma_scan_concat(st, a, s1);
    let st2 = scan(st, a);
    assert(s1[0] == c);
    assert(s1.skip(1).len() == 0);
    assert(scan(st2, s1) == scan(scan_step(st2, c), s1.skip(1)));
    assert(scan(scan_step(st2, c), s1.skip(1)) == scan_step(st2, c));
}

/// A trailing comma before a closing brace is harmless: from any scan
/// state, `",}"` leads to exactly the state `"}"` leads to, whatever
/// follows. So `{b,d,}` closes the same leaf set as `{b,d}`.
pub proof fn lemma_trailing_comma(st: ScanState, rest: Seq<char>)
    ensures
        scan(st, seq![',', '}'] + rest) == scan(st, seq!['}'] + rest),
{
    let a = scan_step(st, ',');
    let b = scan_step(a, '}');
    let c = scan_step(st, '}');
    assert(b == c) by {
        let t: int = if st.stk.len() > 0 {
            st.stk.last() as int
        } else {
            0
        };
        // truncating twice to the same saved length changes nothing
        if 0 <= t <= st.cur.len() {
            assert(a.cur == st.cur.take(t));
            assert(trunc_to(a.cur, t) =~= a.cur);
        }
        assert(b.cur == c.cur);
        assert(b.stk == c.stk);
        assert(b.leaves == c.leaves);
        assert(b.last == c.last);
    }
    assert(seq![',', '}'] + rest =~= seq![','] + (seq!['}'] + rest));
    lemma_scan_concat(st, seq![','], seq!['}'] + rest);
    assert(seq![','][0] == ',');
    assert(seq![','].skip(1).len() == 0);
    assert(scan(st, seq![',']) == scan(scan_step(st, ','), seq![','].skip(1)));
    assert(scan(scan_step(st, ','), seq![','].skip(1)) == a);
    lemma_scan_concat(a, seq!['}'], rest);
    lemma_scan_concat(st, seq!['}'], rest);
    assert(seq!['}'][0] == '}');
    assert(seq!['}'].skip(1).len() == 0);
    assert(scan(a, seq!['}']) == scan(scan_step(a, '}'), seq!['}'].skip(1)));
    assert(scan(scan_step(a, '}'), seq!['}'].skip(1)) == b);
    assert(scan(st, seq!['}']) == scan(scan_step(st, '}'), seq!['}'].skip(1)));
    assert(scan(scan_step(st, '}'), seq!['}'].skip(1)) == c);
    assert(seq!['}'] + rest =~= seq!['}'] + rest);
    assert(scan(a, seq!['}'] + rest) == scan(b, rest));
    assert(scan(st, seq!['}'] + rest) == scan(c, rest));
}

/// The brace depth after scanning `s` from depth `d`; `None` once a close
/// brace appears at depth zero.
pub open spec fn brace_depth(s: Seq<char>, d: nat) -> Option<nat>
    decreases s.len(),
{
    if s.len() == 0 {
        Some(d)
    } else if s[0] == '}' {
        if d == 0 {
            None
        } else {
            brace_depth(s.skip(1), (d - 1) as nat)
        }
    } else if s[0] == '{' {
        brace_depth(s.skip(1), d + 1)
    } else {
        brace_depth(s.skip(1), d)
    }
}

/// Brace groups in `s` balance: no close brace without a matching open
/// brace, and every open brace is closed.
pub open spec fn braces_ok(s: Seq<char>) -> bool {
    brace_depth(s, 0) == Some(0nat)
}

pub proof fn lemma_brace_depth_concat(a: Seq<char>, b: Seq<char>, d: nat)
    ensures
        brace_depth(a + b, d) == match brace_depth(a, d) {
            Some(m) => brace_depth(b, m),
            None => None::<nat>,
        },
    decreases a.len(),
{
    if a.len() == 0 {
        assert(a + b =~= b);
    } else {
        assert((a + b).skip(1) =~= a.skip(1) + b);
        if a[0] == '}' {
            if d != 0 {
                lemma_brace_depth_concat(a.skip(1), b, (d - 1) as nat);
            }
        } else if a[0] == '{' {
            lemma_brace_depth_concat(a.skip(1), b, d + 1);
        } else {
            lemma_brace_depth_concat(a.skip(1), b, d);
        }
    }
}

/// The containing path of a leaf: everything before its last separator.
pub open spec fn leaf_containing(l: Seq<char>) -> Seq<char> {
    l.take(rfind_char(l, '/'))
}

/// The symbol of a leaf: everything after its last separator.
pub open spec fn leaf_symbol(l: Seq<char>) -> Seq<char> {
    l.skip(rfind_char(l, '/') + 1)
}

/// A leaf can be split into containing path and symbol, and its containing
/// path again into a parent path and a module name.
pub open spec fn leaf_wf(l: Seq<char>) -> bool {
    rfind_char(l, '/') >= 0 && rfind_char(leaf_containing(l), '/') >= 0
}

/// The module name of a leaf: the last segment of its containing path.
pub open spec fn leaf_module_name(l: Seq<char>) -> Seq<char> {
    leaf_containing(l).skip(rfind_char(leaf_containing(l), '/') + 1)
}

/// The file suffix appended to a containing path.
pub open spec fn rs_suffix() -> Seq<char> {
    seq!['.', 'r', 's']
}

/// The file reference of a leaf: its containing path plus the file suffix.
pub open spec fn leaf_file_ref(l: Seq<char>) -> Seq<char> {
    leaf_containing(l) + rs_suffix()
}

/// The rewritten local import line of a leaf. From the entrypoint every
/// module is a direct sibling; from any other module it sits one scope up.
pub open spec fn leaf_import(l: Seq<char>, root: bool) -> Seq<char> {
    let prefix = if root {
        seq!['u', 's', 'e', ' ']
    } else {
        seq!['u', 's', 'e', ' ', 's', 'u', 'p', 'e', 'r', ':', ':']
    };
    prefix + leaf_module_name(l) + seq![':', ':'] + leaf_symbol(l) + seq![';']
}

/// `s` with every element that equals its predecessor removed.
pub open spec fn dedup_consec(s: Seq<Seq<char>>) -> Seq<Seq<char>>
    decreases s.len(),
{
    if s.len() <= 1 {
        s
    } else if s[s.len() - 1] == s[s.len() - 2] {
        dedup_consec(s.drop_last())
    } else {
        dedup_consec(s.drop_last()).push(s.last())
    }
}

/// Index of the first `::` in `s`, or `s.len()` if absent.
pub open spec fn find_dcolon(s: Seq<char>) -> int
    decreases s.len(),
{
    if s.len() < 2 {
        s.len() as int
    } else if s[0] == ':' && s[1] == ':' {
        0
    } else {
        1 + find_dcolon(s.skip(1))
    }
}

pub proof fn lemma_find_dcolon(s: Seq<char>)
    ensures
        0 <= find_dcolon(s) <= s.len(),
        find_dcolon(s) + 2 <= s.len() ==> s[find_dcolon(s)] == ':' && s[find_dcolon(s) + 1]
            == ':',
        forall|j: int|
            0 <= j < find_dcolon(s) && j + 2 <= s.len() ==> !(#[trigger] s[j] == ':' && s[j + 1]
                == ':'),
    decreases s.len(),
{
    if s.len() >= 2 && !(s[0] == ':' && s[1] == ':') {
        lemma_find_dcolon(s.skip(1));
        assert forall|j: int|
            0 <= j < find_dcolon(s) && j + 2 <= s.len() implies !(#[trigger] s[j] == ':' && s[j
            + 1] == ':') by {
            if j > 0 {
                assert(s.skip(1)[j - 1] == s[j]);
                assert(s.skip(1)[j] == s[j + 1]);
            }
        }
    }
}

/// `s` holds a `::` separator.
pub open spec fn has_dcolon(s: Seq<char>) -> bool {
    find_dcolon(s) + 2 <= s.len()
}

/// The body of a directive: everything after the first `::`.
pub open spec fn pu_tail(line: Seq<char>) -> Seq<char> {
    line.skip(find_dcolon(line) + 2)
}

/// The leaf paths of a directive body.
pub open spec fn pu_leaves(line: Seq<char>) -> Seq<Seq<char>> {
    scan(init_state(), pu_tail(line)).leaves
}

/// A directive parses without a structural error: braces balance and every
/// leaf splits into parent path, module name and symbol.
pub open spec fn pu_ok(line: Seq<char>) -> bool {
    braces_ok(pu_tail(line)) && forall|i: int|
        0 <= i < pu_leaves(line).len() ==> leaf_wf(#[trigger] pu_leaves(line)[i])
}

/// The distinct containing-module file references of a directive, in
/// first-seen order, consecutive duplicates collapsed.
pub open spec fn pu_refs(line: Seq<char>) -> Seq<Seq<char>> {
    dedup_consec(pu_leaves(line).map_values(|l: Seq<char>| leaf_file_ref(l)))
}

/// The rewritten local import lines of a directive, one per leaf.
pub open spec fn pu_imports(line: Seq<char>, root: bool) -> Seq<Seq<char>> {
    pu_leaves(line).map_values(|l: Seq<char>| leaf_import(l, root))
}

/// The trailing-comma law at the directive level: inserting a comma
/// immediately before a closing brace anywhere after the first `::`
/// changes nothing the parse produces — not the leaves, not the file
/// references, not the rewritten imports, and not whether it succeeds.
pub proof fn lemma_trailing_comma_directive(
    l1: Seq<char>,
    l2: Seq<char>,
    a: Seq<char>,
    rest: Seq<char>,
    root: bool,
)
    requires
        pu_tail(l1) == a + (seq!['}'] + rest),
        pu_tail(l2) == a + (seq![','] + (seq!['}'] + rest)),
    ensures
        pu_leaves(l2) == pu_leaves(l1),
        pu_ok(l2) == pu_ok(l1),
        pu_refs(l2) == pu_refs(l1),
        pu_imports(l2, root) == pu_imports(l1, root),
{
    let x = seq!['}'] + rest;
    let cx = seq![','] + x;
    // the scans agree
    lemma_scan_concat(init_state(), a, x);
    lemma_scan_concat(init_state(), a, cx);
    assert(cx =~= seq![',', '}'] + rest);
    lemma_trailing_comma(scan(init_state(), a), rest);
    assert(scan(init_state(), pu_tail(l2)) == scan(init_state(), pu_tail(l1)));
    // brace balance agrees: the comma leaves the depth unchanged
    lemma_brace_depth_concat(a, x, 0);
    lemma_brace_depth_concat(a, cx, 0);
    match brace_depth(a, 0nat) {
        None => {},
        Some(m) => {
            assert(cx[0] == ',');
            assert(cx.skip(1) =~= x);
            assert(brace_depth(cx, m) == brace_depth(x, m));
        },
    }
    assert(braces_ok(pu_tail(l2)) == braces_ok(pu_tail(l1)));
}

pub proof fn lemma_dedup_snoc(s: Seq<Seq<char>>, x: Seq<char>)
    ensures
        dedup_consec(s.push(x)) == if s.len() > 0 && x == s.last() {
            dedup_consec(s)
        } else {
            dedup_consec(s).push(x)
        },
{
    let t = s.push(x);
    assert(t.drop_last() =~= s);
    if s.len() == 0 {
        assert(dedup_consec(t) == t);
        assert(t =~= dedup_consec(s).push(x));
    } else {
        assert(t[t.len() - 1] == x);
        assert(t[t.len() - 2] == s.last());
    }
}

/// Runs the scan over a directive body, returning the leaf paths.
fn scan_exec(tail: &Vec<char>) -> (r: Result<Vec<Vec<char>>, ExpandError>)
    ensures
        match r {
            Ok(leaves) => braces_ok(tail@) && leaves.deep_view() == scan(
                init_state(),
                tail@,
            ).leaves,
            Err(e) => e == ExpandError::StructuralParse && !braces_ok(tail@),
        },
{
    let mut cur: Vec<char> = Vec::new();
    cur.push('s');
    cur.push('r');
    cur.push('c');
    cur.push('/');
    let mut stk: Vec<usize> = Vec::new();
    let mut leaves: Vec<Vec<char>> = Vec::new();
    let mut last: char = '$';
    proof {
        assert(cur@ =~= root_seed());
        assert(stk@.map_values(|x: usize| x as nat) =~= init_state().stk);
        assert(leaves.deep_view() =~~= init_state().leaves);
        assert(tail@.take(0) =~= Seq::<char>::empty());
        assert(tail@.skip(0) =~= tail@);
    }
    let mut i: usize = 0;
    while i < tail.len()
        invariant
            i <= tail@.len(),
            cur@ == scan(init_state(), tail@.take(i as int)).cur,
            stk@.map_values(|x: usize| x as nat) == scan(init_state(), tail@.take(i as int)).stk,
            leaves.deep_view() == scan(init_state(), tail@.take(i as int)).leaves,
            last == scan(init_state(), tail@.take(i as int)).last,
            brace_depth(tail@, 0) == brace_depth(tail@.skip(i as int), stk@.len() as nat),
        decreases tail@.len() - i,
    {
        let ghost pre = scan(init_state(), tail@.take(i as int));
        let c = tail[i];
        proof {
            lemma_scan_snoc(init_state(), tail@.take(i as int), c);
            assert(tail@.take(i + 1) =~= tail@.take(i as int).push(c));
            assert(tail@.skip(i as int)[0] == c);
            assert(tail@.skip(i as int).skip(1) =~= tail@.skip(i + 1));
        }
        let ghost post = scan_step(pre, c);
        if c == ':' {
            if !(cur.len() > 0 && cur[cur.len() - 1] == '/') {
                cur.push('/');
            }
        } else if c == '{' {
            stk.push(cur.len());
            proof {
                assert(stk@.map_values(|x: usize| x as nat) =~= pre.stk.push(cur@.len()));
            }
        } else if c == ',' || c == ';' || c == '}' {
            if c == '}' && stk.len() == 0 {
                // a close brace with no open group: the whole expression is
                // structurally invalid
                return Err(ExpandError::StructuralParse);
            }
            if last != '}' && last != ',' {
                let ghost prevdv = leaves.deep_view();
                let leaf = subvec(&cur, 0, cur.len());
                proof {
                    assert(leaf@ =~= cur@);
                }
                leaves.push(leaf);
                proof {
                    assert(leaves.deep_view() =~~= prevdv.push(cur@));
                }
            }
            let target: usize = if stk.len() > 0 {
                stk[stk.len() - 1]
            } else {
                0
            };
            if target <= cur.len() {
                cur.truncate(target);
                proof {
                    assert(cur@ =~= trunc_to(pre.cur, target as int));
                }
            }
            if c == '}' {
                // the stack is non-empty here: an empty stack returned above
                stk.pop();
                proof {
                    assert(stk@.map_values(|x: usize| x as nat) =~= pre.stk.drop_last());
                }
            }
        } else {
            cur.push(c);
        }
        last = c;
        i = i + 1;
        proof {
            assert(cur@ == post.cur);
            assert(stk@.map_values(|x: usize| x as nat) =~= post.stk);
            assert(leaves.deep_view() =~~= post.leaves);
        }
    }
    proof {
        assert(tail@.take(tail@.len() as int) =~= tail@);
        assert(tail@.skip(tail@.len() as int) =~= Seq::<char>::empty());
    }
    if stk.len() > 0 {
        // an open group was never closed
        return Err(ExpandError::StructuralParse);
    }
    Ok(leaves)
}

/// Splits each leaf into containing path, module name and symbol, and
/// renders the file references (consecutive duplicates collapsed) and the
/// rewritten import lines.
fn format_leaves(leaves: &Vec<Vec<char>>, root: bool) -> (r: Result<
    (Vec<Vec<char>>, Vec<Vec<char>>),
    ExpandError,
>)
    ensures
        match r {
            Ok((refs, imports)) => {
                &&& forall|i: int|
                    0 <= i < leaves.deep_view().len() ==> leaf_wf(#[trigger] leaves.deep_view()[i])
                &&& refs.deep_view() == dedup_consec(
                    leaves.deep_view().map_values(|l: Seq<char>| leaf_file_ref(l)),
                )
                &&& imports.deep_view() == leaves.deep_view().map_values(
                    |l: Seq<char>| leaf_import(l, root),
                )
            },
            Err(e) => {
                &&& e == ExpandError::StructuralParse
                &&& exists|i: int|
                    0 <= i < leaves.deep_view().len() && !leaf_wf(
                        #[trigger] leaves.deep_view()[i],
                    )
            },
        },
{
    let mut refs: Vec<Vec<char>> = Vec::new();
    let mut imports: Vec<Vec<char>> = Vec::new();
    let ghost lv = leaves.deep_view();
    let mut k: usize = 0;
    proof {
        assert(lv.take(0) =~= Seq::<Seq<char>>::empty());
        assert(refs.deep_view() =~~= dedup_consec(
            lv.take(0).map_values(|l: Seq<char>| leaf_file_ref(l)),
        ));
        assert(imports.deep_view() =~~= lv.take(0).map_values(|l: Seq<char>| leaf_import(l, root)));
    }
    while k < leaves.len()
        invariant
            k <= lv.len(),
            lv == leaves.deep_view(),
            lv.len() == leaves@.len(),
            forall|i: int| 0 <= i < k ==> leaf_wf(#[trigger] lv[i]),
            refs.deep_view() == dedup_consec(
                lv.take(k as int).map_values(|l: Seq<char>| leaf_file_ref(l)),
            ),
            imports.deep_view() == lv.take(k as int).map_values(
                |l: Seq<char>| leaf_import(l, root),
            ),
            k > 0 ==> refs.deep_view().len() > 0 && refs.deep_view().last() == leaf_file_ref(
                lv[k - 1],
            ),
        decreases lv.len() - k,
    {
        let l = &leaves[k];
        proof {
            assert(lv[k as int] == leaves@[k as int].deep_view());
            assert(leaves@[k as int].deep_view() =~= leaves@[k as int]@);
            assert(l@ == lv[k as int]);
        }
        let sl = match rfind(l, '/') {
            Some(sl) => sl,
            None => {
                proof {
                    assert(!leaf_wf(lv[k as int]));
                }
                return Err(ExpandError::StructuralParse);
            },
        };
        proof {
            crate::text::lemma_rfind_char(l@, '/');
        }
        let ln = l.len();
        let containing = subvec(l, 0, sl);
        let symbol = subvec(l, sl + 1, ln);
        proof {
            assert(containing@ == leaf_containing(lv[k as int]));
            assert(symbol@ == leaf_symbol(lv[k as int]));
        }
        let sc = match rfind(&containing, '/') {
            Some(sc) => sc,
            None => {
                proof {
                    assert(!leaf_wf(lv[k as int]));
                }
                return Err(ExpandError::StructuralParse);
            },
        };
        proof {
            crate::text::lemma_rfind_char(containing@, '/');
        }
        let module_name = subvec(&containing, sc + 1, containing.len());
        proof {
            assert(leaf_wf(lv[k as int]));
            assert(module_name@ == leaf_module_name(lv[k as int]));
        }
        // the file reference: containing path plus the file suffix
        let mut fr = subvec(&containing, 0, containing.len());
        fr.push('.');
        fr.push('r');
        fr.push('s');
        proof {
            assert(fr@ =~= leaf_file_ref(lv[k as int]));
        }
        // collapse a consecutive duplicate
        proof {
            if refs@.len() > 0 {
                assert(refs.deep_view()[refs@.len() - 1] == refs@[refs@.len() - 1].deep_view());
                assert(refs@[refs@.len() - 1].deep_view() =~= refs@[refs@.len() - 1]@);
            }
        }
        let dup = if refs.len() > 0 {
            chars_eq(&refs[refs.len() - 1], &fr)
        } else {
            false
        };
        let ghost prevrefs = refs.deep_view();
        proof {
            assert(dup == (prevrefs.len() > 0 && prevrefs.last() == leaf_file_ref(lv[k as int])));
        }
        if !dup {
            refs.push(fr);
            proof {
                assert(refs.deep_view() =~~= prevrefs.push(leaf_file_ref(lv[k as int])));
            }
        }
        // the rewritten local import line
        let mut imp: Vec<char> = Vec::new();
        imp.push('u');
        imp.push('s');
        imp.push('e');
        imp.push(' ');
        if !root {
            imp.push('s');
            imp.push('u');
            imp.push('p');
            imp.push('e');
            imp.push('r');
            imp.push(':');
            imp.push(':');
        }
        push_chars(&mut imp, &module_name);
        imp.push(':');
        imp.push(':');
        push_chars(&mut imp, &symbol);
        imp.push(';');
        proof {
            assert(imp@ =~= leaf_import(lv[k as int], root));
        }
        let ghost previmp = imports.deep_view();
        imports.push(imp);
        k = k + 1;
        proof {
            let x = leaf_file_ref(lv[k - 1]);
            let mapped = lv.take(k as int).map_values(|l: Seq<char>| leaf_file_ref(l));
            let mappedprev = lv.take(k - 1).map_values(|l: Seq<char>| leaf_file_ref(l));
            assert(lv.take(k as int) =~= lv.take(k - 1).push(lv[k - 1]));
            assert(mapped =~= mappedprev.push(x));
            lemma_dedup_snoc(mappedprev, x);
            assert(mappedprev.len() == k - 1);
            if k > 1 {
                assert(lv.take(k - 1)[k - 2] == lv[k - 2]);
                assert(mappedprev.last() == leaf_file_ref(lv[k - 2]));
                assert(prevrefs.last() == leaf_file_ref(lv[k - 2]));
            }
            if dup {
                assert(mappedprev.len() > 0 && x == mappedprev.last());
                assert(refs.deep_view() == dedup_consec(mapped));
                assert(refs.deep_view().last() == x);
            } else {
                assert(!(mappedprev.len() > 0 && x == mappedprev.last()));
                assert(dedup_consec(mapped) == dedup_consec(mappedprev).push(x));
                assert(refs.deep_view() == dedup_consec(mapped));
                assert(refs.deep_view().last() == x);
            }
            assert(imports.deep_view() =~~= previmp.push(leaf_import(lv[k - 1], root)));
            assert(lv.take(k as int).map_values(|l: Seq<char>| leaf_import(l, root)) =~= lv.take(
                k - 1,
            ).map_values(|l: Seq<char>| leaf_import(l, root)).push(leaf_import(lv[k - 1], root)));
        }
    }
    proof {
        assert(lv.take(lv.len() as int) =~= lv);
    }
    Ok((refs, imports))
}

/// Parses one whitespace-free import directive, given as characters.
/// See [`parse_use`].
pub fn parse_use_chars(line: &Vec<char>, root: bool) -> (r: Result<
    (Vec<Vec<char>>, Vec<Vec<char>>),
    ExpandError,
>)
    requires
        has_dcolon(line@),
    ensures
        match r {
            Ok((refs, imports)) => {
                &&& pu_ok(line@)
                &&& refs.deep_view() == pu_refs(line@)
                &&& imports.deep_view() == pu_imports(line@, root)
            },
            Err(e) => !pu_ok(line@) && e == ExpandError::StructuralParse,
        },
{
    proof {
        lemma_find_dcolon(line@);
    }
    let ghost d = find_dcolon(line@);
    let n = line.len();
    let mut i: usize = 0;
    while !(line[i] == ':' && line[i + 1] == ':')
        invariant
            0 <= i <= d,
            d == find_dcolon(line@),
            d + 2 <= n,
            n == line@.len(),
        decreases d - i,
    {
        proof {
            lemma_find_dcolon(line@);
            assert(!(line@[i as int] == ':' && line@[i + 1] == ':'));
            assert(i < d) by {
                if i == d {
                    assert(line@[d] == ':' && line@[d + 1] == ':');
                }
            }
        }
        i = i + 1;
    }
    proof {
        lemma_find_dcolon(line@);
        assert(i == d) by {
            if i < d {
                assert(!(line@[i as int] == ':' && line@[i + 1] == ':'));
            }
        }
    }
    let tail = subvec(line, i + 2, n);
    proof {
        assert(tail@ =~= pu_tail(line@));
    }
    let leaves = match scan_exec(&tail) {
        Ok(leaves) => leaves,
        Err(e) => {
            return Err(e);
        },
    };
    match format_leaves(&leaves, root) {
        Ok((refs, imports)) => Ok((refs, imports)),
        Err(e) => Err(e),
    }
}

/// Parses the body of one import directive, already stripped of white
/// space, into the ordered list of distinct containing-module file
/// references (consecutive duplicates collapsed) and the list of rewritten
/// local import lines, one per leaf, in leaf-closing order.
///
/// `root` says whether the enclosing module is the entrypoint; from any
/// other module the rewritten imports reach their target one scope up,
/// through `super`.
///
/// Fails with [`ExpandError::StructuralParse`] exactly when the brace
/// groups of the expression do not balance or a leaf path is too short to
/// split into parent path, module name and symbol.
pub fn parse_use(line: &str, root: bool) -> (r: Result<(Vec<String>, Vec<String>), ExpandError>)
    requires
        has_dcolon(line@),
    ensures
        match r {
            Ok((paths, imports)) => {
                &&& pu_ok(line@)
                &&& paths.deep_view() == pu_refs(line@)
                &&& imports.deep_view() == pu_imports(line@, root)
            },
            Err(e) => !pu_ok(line@) && e == ExpandError::StructuralParse,
        },
{
    let chars = str_to_chars(line);
    match parse_use_chars(&chars, root) {
        Ok((refs, imports)) => Ok((crate::text::to_strings(&refs), crate::text::to_strings(
            &imports,
        ))),
        Err(e) => Err(e),
    }
}

/// A fatal failure while bundling. The operation aborts with no output.
#[derive(Clone, Copy, Debug, PartialEq, Eq, Structural)]
pub enum ExpandError {
    /// Unbalanced or malformed brace grouping in an import path expression.
    StructuralParse,
    /// A referenced module exists neither as a direct file nor as a
    /// directory index file.
    ModuleResolution,
}

/// The text of the first entry of `t` whose key is `k`, if any.
pub open spec fn tbl_lookup(t: Seq<(Seq<char>, Seq<char>)>, k: Seq<char>) -> Option<Seq<char>>
    decreases t.len(),
{
    if t.len() == 0 {
        None
    } else if t[0].0 == k {
        Some(t[0].1)
    } else {
        tbl_lookup(t.skip(1), k)
    }
}

pub open spec fn tbl_keys(t: Seq<(Seq<char>, Seq<char>)>) -> Seq<Seq<char>> {
    t.map_values(|e: (Seq<char>, Seq<char>)| e.0)
}

pub proof fn lemma_tbl_lookup(t: Seq<(Seq<char>, Seq<char>)>, k: Seq<char>)
    ensures
        tbl_lookup(t, k) is Some <==> tbl_keys(t).contains(k),
    decreases t.len(),
{
    if t.len() > 0 {
        lemma_tbl_lookup(t.skip(1), k);
        assert(tbl_keys(t)[0] == t[0].0);
        assert(tbl_keys(t.skip(1)) =~= tbl_keys(t).skip(1));
        if t[0].0 != k {
            if tbl_keys(t).contains(k) {
                let i = choose|i: int| 0 <= i < tbl_keys(t).len() && tbl_keys(t)[i] == k;
                assert(tbl_keys(t).skip(1)[i - 1] == k);
            }
            if tbl_keys(t).skip(1).contains(k) {
                let i = choose|i: int|
                    0 <= i < tbl_keys(t).skip(1).len() && tbl_keys(t).skip(1)[i] == k;
                assert(tbl_keys(t)[i + 1] == k);
            }
        }
    }
}

/// `k` ends with the file suffix.
pub open spec fn ends_rs(k: Seq<char>) -> bool {
    k.len() >= 3 && k.skip(k.len() - 3) == rs_suffix()
}

/// The directory-index fallback of a file reference: the final `.rs`
/// segment reinterpreted as a directory holding the canonical index file.
pub open spec fn mod_fallback(k: Seq<char>) -> Seq<char> {
    k.take(k.len() - 3) + seq!['/', 'm', 'o', 'd', '.', 'r', 's']
}

/// The source text a file reference resolves to: the direct file first, the
/// directory-index file second.
pub open spec fn resolve(t: Seq<(Seq<char>, Seq<char>)>, k: Seq<char>) -> Option<Seq<char>> {
    if tbl_lookup(t, k) is Some {
        tbl_lookup(t, k)
    } else if ends_rs(k) {
        tbl_lookup(t, mod_fallback(k))
    } else {
        None
    }
}

/// The source files a bundling run may read: module text keyed by its
/// file-system path. Keys are unique.
pub struct FileTable {
    keys: Vec<Vec<char>>,
    texts: Vec<Vec<char>>,
}

impl View for FileTable {
    type V = Seq<(Seq<char>, Seq<char>)>;

    closed spec fn view(&self) -> Seq<(Seq<char>, Seq<char>)> {
        Seq::new(self.keys@.len(), |i: int| (self.keys@[i]@, self.texts@[i]@))
    }
}

impl FileTable {
    /// Both columns line up and no key repeats.
    pub closed spec fn wf(&self) -> bool {
        self.keys@.len() == self.texts@.len() && tbl_keys(self@).no_duplicates()
    }

    pub fn new() -> (r: FileTable)
        ensures
            r.wf(),
            r@ == Seq::<(Seq<char>, Seq<char>)>::empty(),
    {
        let r = FileTable { keys: Vec::new(), texts: Vec::new() };
        proof {
            assert(r@ =~= Seq::<(Seq<char>, Seq<char>)>::empty());
            assert(tbl_keys(r@) =~= Seq::<Seq<char>>::empty());
        }
        r
    }

    /// Looks a key up by linear scan.
    fn lookup(&self, key: &Vec<char>) -> (r: Option<Vec<char>>)
        requires
            self.wf(),
        ensures
            match r {
                Some(t) => tbl_lookup(self@, key@) == Some(t@),
                None => tbl_lookup(self@, key@) is None,
            },
    {
        let n = self.keys.len();
        let mut i: usize = 0;
        proof {
            assert(self@.skip(0) =~= self@);
        }
        while i < n
            invariant
                self.wf(),
                i <= n == self.keys@.len() == self.texts@.len(),
                tbl_lookup(self@, key@) == tbl_lookup(self@.skip(i as int), key@),
            decreases n - i,
        {
            proof {
                assert(self@.skip(i as int)[0] == (self.keys@[i as int]@, self.texts@[i as int]@));
                assert(self@.skip(i as int).skip(1) =~= self@.skip(i + 1));
            }
            if chars_eq(&self.keys[i], key) {
                let t = subvec(&self.texts[i], 0, self.texts[i].len());
                proof {
                    assert(t@ =~= self.texts@[i as int]@);
                }
                return Some(t);
            }
            i = i + 1;
        }
        proof {
            assert(self@.skip(n as int).len() == 0);
        }
        None
    }

    /// Whether `key` is present directly.
    fn contains_key(&self, key: &Vec<char>) -> (r: bool)
        requires
            self.wf(),
        ensures
            r == (tbl_lookup(self@, key@) is Some),
    {
        self.lookup(key).is_some()
    }

    /// Registers `path` with its source text. A repeated path is refused so
    /// that keys stay unique.
    pub fn insert(&mut self, path: &str, text: &str) -> (r: bool)
        requires
            old(self).wf(),
        ensures
            final(self).wf(),
            r == (tbl_lookup(old(self)@, path@) is None),
            r ==> final(self)@ == old(self)@.push((path@, text@)),
            !r ==> final(self)@ == old(self)@,
    {
        let key = str_to_chars(path);
        if self.contains_key(&key) {
            return false;
        }
        let tx = str_to_chars(text);
        proof {
            lemma_tbl_lookup(self@, key@);
        }
        self.keys.push(key);
        self.texts.push(tx);
        proof {
            assert(self@ =~= old(self)@.push((path@, text@)));
            assert(tbl_keys(self@) =~= tbl_keys(old(self)@).push(path@));
            assert(tbl_keys(self@).drop_last() =~= tbl_keys(old(self)@));
        }
        true
    }

    /// Resolves one containing-module file reference to its source text:
    /// the direct file first; failing that, the final path segment is
    /// reinterpreted as a directory and its canonical index file is read.
    fn resolve_module(&self, key: &Vec<char>) -> (r: Result<Vec<char>, ExpandError>)
        requires
            self.wf(),
        ensures
            match r {
                Ok(t) => resolve(self@, key@) == Some(t@),
                Err(e) => resolve(self@, key@) is None && e == ExpandError::ModuleResolution,
            },
    {
        match self.lookup(key) {
            Some(t) => Ok(t),
            None => {
                // the direct file is absent: try the directory index file
                let n = key.len();
                let is_rs = n >= 3 && key[n - 3] == '.' && key[n - 2] == 'r' && key[n - 1] == 's';
                proof {
                    assert(is_rs == ends_rs(key@)) by {
                        if n >= 3 {
                            assert(key@.skip(n - 3).len() == 3);
                            assert(key@.skip(n - 3)[0] == key@[n - 3]);
                            assert(key@.skip(n - 3)[1] == key@[n - 2]);
                            assert(key@.skip(n - 3)[2] == key@[n - 1]);
                            if is_rs {
                                assert(key@.skip(n - 3) =~= rs_suffix());
                            }
                        }
                    }
                }
                if !is_rs {
                    return Err(ExpandError::ModuleResolution);
                }
                let mut fb = subvec(key, 0, n - 3);
                fb.push('/');
                fb.push('m');
                fb.push('o');
                fb.push('d');
                fb.push('.');
                fb.push('r');
                fb.push('s');
                proof {
                    assert(fb@ =~= mod_fallback(key@));
                }
                match self.lookup(&fb) {
                    Some(t) => Ok(t),
                    None => Err(ExpandError::ModuleResolution),
                }
            },
        }
    }
}

/// State of the line classification of one module's text.
pub struct ClassState {
    /// A multi-line import directive is still being accumulated.
    pub adding: bool,
    /// The accumulated import directives, in source order.
    pub uses: Seq<Seq<char>>,
    /// The non-import body lines, each followed by a newline.
    pub body: Seq<char>,
}

pub open spec fn lit_use() -> Seq<char> {
    seq!['u', 's', 'e']
}

pub open spec fn lit_mod() -> Seq<char> {
    seq!['m', 'o', 'd']
}

pub open spec fn lit_pub_mod() -> Seq<char> {
    seq!['p', 'u', 'b', ' ', 'm', 'o', 'd']
}

pub open spec fn lit_use_crate() -> Seq<char> {
    seq!['u', 's', 'e', ' ', 'c', 'r', 'a', 't', 'e', ':', ':']
}

/// A nested-module declaration line, dropped from the output: the bundle is
/// flat, so such declarations would be redundant or dangling.
pub open spec fn is_mod_decl(line: Seq<char>) -> bool {
    (is_prefix(lit_mod(), line) || is_prefix(lit_pub_mod(), line)) && line.len() > 0 && line[line.len()
        - 1] == ';'
}

pub open spec fn init_class() -> ClassState {
    ClassState { adding: false, uses: Seq::empty(), body: Seq::empty() }
}

/// Classifies one line. `None` marks a new import directive opening while
/// an earlier one is still unterminated, a malformed nesting the bundler
/// refuses.
pub open spec fn classify_step(st: ClassState, line: Seq<char>) -> Option<ClassState> {
    if is_prefix(lit_use(), line) {
        if st.adding {
            None
        } else {
            Some(
                ClassState {
                    adding: !(last_nonws(line) == Some(';')),
                    uses: st.uses.push(line),
                    body: st.body,
                },
            )
        }
    } else if is_mod_decl(line) {
        Some(st)
    } else if st.adding {
        let uses = if st.uses.len() > 0 {
            st.uses.update(st.uses.len() - 1, st.uses.last() + line)
        } else {
            st.uses.push(line)
        };
        Some(ClassState { adding: !(last_nonws(line) == Some(';')), uses, body: st.body })
    } else {
        Some(ClassState { adding: false, uses: st.uses, body: st.body + line + seq!['\n'] })
    }
}

/// The classification folded over the lines, from the left.
pub open spec fn classify(st: ClassState, lines: Seq<Seq<char>>) -> Option<ClassState>
    decreases lines.len(),
{
    if lines.len() == 0 {
        Some(st)
    } else {
        match classify_step(st, lines[0]) {
            None => None,
            Some(st2) => classify(st2, lines.skip(1)),
        }
    }
}

pub proof fn lemma_classify_concat(st: ClassState, a: Seq<Seq<char>>, b: Seq<Seq<char>>)
    ensures
        classify(st, a + b) == match classify(st, a) {
            None => None::<ClassState>,
            Some(m) => classify(m, b),
        },
    decreases a.len(),
{
    if a.len() == 0 {
        assert(a + b =~= b);
    } else {
        assert((a + b)[0] == a[0]);
        assert((a + b).skip(1) =~= a.skip(1) + b);
        match classify_step(st, a[0]) {
            None => {},
            Some(st2) => {
                lemma_classify_concat(st2, a.skip(1), b);
            },
        }
    }
}

pub proof fn lemma_classify_snoc(st: ClassState, lines: Seq<Seq<char>>, line: Seq<char>)
    ensures
        classify(st, lines.push(line)) == match classify(st, lines) {
            None => None::<ClassState>,
            Some(st2) => classify_step(st2, line),
        },
{
    let s1 = seq![line];
    assert(lines.push(line) =~= lines + s1);
    lemma_classify_concat(st, lines, s1);
    assert(s1[0] == line);
    assert(s1.skip(1).len() == 0);
    match classify(st, lines) {
        None => {},
        Some(m) => {
            match classify_step(m, line) {
                None => {
                    assert(classify(m, s1) is None);
                },
                Some(x) => {
                    assert(classify(m, s1) == classify(x, s1.skip(1)));
                    assert(classify(x, s1.skip(1)) == Some(x));
                },
            }
        },
    }
}

/// Splits a module's lines into import directives and body text, dropping
/// nested-module declaration lines.
fn classify_exec(lines: &Vec<Vec<char>>) -> (r: Result<(Vec<Vec<char>>, Vec<char>), ExpandError>)
    ensures
        match r {
            Ok((uses, body)) => match classify(init_class(), lines.deep_view()) {
                Some(st) => uses.deep_view() == st.uses && body@ == st.body,
                None => false,
            },
            Err(e) => classify(init_class(), lines.deep_view()) is None && e
                == ExpandError::StructuralParse,
        },
{
    let ghost lv = lines.deep_view();
    let mut uses: Vec<Vec<char>> = Vec::new();
    let mut body: Vec<char> = Vec::new();
    let mut adding: bool = false;
    let lit_use_v = str_to_chars("use");
    let lit_mod_v = str_to_chars("mod");
    let lit_pub_mod_v = str_to_chars("pub mod");
    proof {
        reveal_strlit("use");
        reveal_strlit("mod");
        reveal_strlit("pub mod");
        assert(lit_use_v@ =~= lit_use());
        assert(lit_mod_v@ =~= lit_mod());
        assert(lit_pub_mod_v@ =~= lit_pub_mod());
        assert(lv.take(0) =~= Seq::<Seq<char>>::empty());
        assert(uses.deep_view() =~~= Seq::<Seq<char>>::empty());
    }
    let mut k: usize = 0;
    while k < lines.len()
        invariant
            k <= lv.len(),
            lv == lines.deep_view(),
            lv.len() == lines@.len(),
            lit_use_v@ == lit_use(),
            lit_mod_v@ == lit_mod(),
            lit_pub_mod_v@ == lit_pub_mod(),
            classify(init_class(), lv.take(k as int)) == Some(
                ClassState { adding, uses: uses.deep_view(), body: body@ },
            ),
            adding ==> uses@.len() > 0,
        decreases lv.len() - k,
    {
        let line = &lines[k];
        proof {
            assert(lv[k as int] == lines@[k as int].deep_view());
            assert(lines@[k as int].deep_view() =~= lines@[k as int]@);
            assert(line@ == lv[k as int]);
            assert(lv.take(k + 1) =~= lv.take(k as int).push(lv[k as int]));
            lemma_classify_snoc(init_class(), lv.take(k as int), lv[k as int]);
        }
        let ghost pre = ClassState { adding, uses: uses.deep_view(), body: body@ };
        if starts_with(line, &lit_use_v) {
            if adding {
                // an import directive opened inside an unterminated one
                proof {
                    assert(classify(init_class(), lv.take(k + 1)) is None);
                    lemma_classify_concat(init_class(), lv.take(k + 1), lv.skip(k + 1));
                    assert(lv.take(k + 1) + lv.skip(k + 1) =~= lv);
                }
                return Err(ExpandError::StructuralParse);
            }
            let stmt = subvec(line, 0, line.len());
            let ghost prevuses = uses.deep_view();
            uses.push(stmt);
            adding = !trimmed_ends_semicolon(line);
            proof {
                assert(uses.deep_view() =~~= prevuses.push(line@));
            }
        } else {
            let modline = (starts_with(line, &lit_mod_v) || starts_with(line, &lit_pub_mod_v))
                && line.len() > 0 && line[line.len() - 1] == ';';
            if modline {
                // nested-module declaration: dropped
            } else if adding {
                let ghost prevuses = uses.deep_view();
                match uses.pop() {
                    Some(mut cur) => {
                        push_chars(&mut cur, line);
                        uses.push(cur);
                        proof {
                            assert(uses.deep_view() =~~= prevuses.update(
                                prevuses.len() - 1,
                                prevuses.last() + line@,
                            ));
                        }
                    },
                    None => {
                        proof {
                            assert(false);
                        }
                    },
                }
                adding = !trimmed_ends_semicolon(line);
            } else {
                push_chars(&mut body, line);
                body.push('\n');
                proof {
                    assert(body@ =~= pre.body + line@ + seq!['\n']);
                }
            }
        }
        k = k + 1;
        proof {
            assert(classify(init_class(), lv.take(k as int)) == Some(
                ClassState { adding, uses: uses.deep_view(), body: body@ },
            ));
        }
    }
    proof {
        assert(lv.take(lv.len() as int) =~= lv);
    }
    Ok((uses, body))
}

/// A directive that names the project root: it is parsed and resolved.
/// Any other directive is copied through unchanged.
pub open spec fn is_crate_directive(u: Seq<char>) -> bool {
    is_prefix(lit_use_crate(), u)
}

/// A directive with white space removed, the form the path scan reads.
pub open spec fn cleaned(u: Seq<char>) -> Seq<char> {
    u.filter(|c: char| !is_ws(c))
}

/// A root directive parses without a structural error.
pub open spec fn directive_ok(u: Seq<char>) -> bool {
    is_crate_directive(u) ==> pu_ok(cleaned(u))
}

/// The rewritten import lines one directive contributes to its module.
pub open spec fn dir_imports(u: Seq<char>, root: bool) -> Seq<Seq<char>> {
    if is_crate_directive(u) {
        pu_imports(cleaned(u), root)
    } else if is_prefix(lit_use(), u) {
        seq![u]
    } else {
        Seq::empty()
    }
}

/// The containing-module file references one directive asks to resolve.
pub open spec fn dir_refs(u: Seq<char>) -> Seq<Seq<char>> {
    if is_crate_directive(u) {
        pu_refs(cleaned(u))
    } else {
        Seq::empty()
    }
}

/// All rewritten import lines of a module, in directive order.
pub open spec fn dirs_imports(uses: Seq<Seq<char>>, root: bool) -> Seq<Seq<char>>
    decreases uses.len(),
{
    if uses.len() == 0 {
        Seq::empty()
    } else {
        dirs_imports(uses.drop_last(), root) + dir_imports(uses.last(), root)
    }
}

/// All file references of a module, in directive order.
pub open spec fn dirs_refs(uses: Seq<Seq<char>>) -> Seq<Seq<char>>
    decreases uses.len(),
{
    if uses.len() == 0 {
        Seq::empty()
    } else {
        dirs_refs(uses.drop_last()) + dir_refs(uses.last())
    }
}

/// Every root directive of the module parses.
pub open spec fn dirs_ok(uses: Seq<Seq<char>>) -> bool {
    forall|i: int| 0 <= i < uses.len() ==> directive_ok(#[trigger] uses[i])
}

/// A root directive always holds a `::` separator, even after white space
/// is removed: its prefix alone supplies one.
pub proof fn lemma_crate_directive_dcolon(u: Seq<char>)
    requires
        is_crate_directive(u),
    ensures
        has_dcolon(cleaned(u)),
{
    let p = |c: char| !is_ws(c);
    let pre = u.take(11);
    let rest = u.skip(11);
    assert(pre =~= lit_use_crate());
    assert(pre + rest =~= u);
    Seq::filter_distributes_over_add(pre, rest, p);
    assert(cleaned(u) == pre.filter(p) + rest.filter(p));
    assert(pre.filter(p) =~= seq!['u', 's', 'e', 'c', 'r', 'a', 't', 'e', ':', ':']) by {
        reveal_with_fuel(Seq::filter, 12);
        assert(pre.drop_last() =~= lit_use_crate().take(10));
        assert(pre.drop_last().drop_last() =~= lit_use_crate().take(9));
        assert(pre.drop_last().drop_last().drop_last() =~= lit_use_crate().take(8));
        assert(lit_use_crate().take(8).drop_last() =~= lit_use_crate().take(7));
        assert(lit_use_crate().take(7).drop_last() =~= lit_use_crate().take(6));
        assert(lit_use_crate().take(6).drop_last() =~= lit_use_crate().take(5));
        assert(lit_use_crate().take(5).drop_last() =~= lit_use_crate().take(4));
        assert(lit_use_crate().take(4).drop_last() =~= lit_use_crate().take(3));
        assert(lit_use_crate().take(3).drop_last() =~= lit_use_crate().take(2));
        assert(lit_use_crate().take(2).drop_last() =~= lit_use_crate().take(1));
        assert(lit_use_crate().take(1).drop_last() =~= lit_use_crate().take(0));
        assert(lit_use_crate().take(0).len() == 0);
    }
    let c = cleaned(u);
    assert(c[8] == ':' && c[9] == ':');
    lemma_find_dcolon(c);
    assert(find_dcolon(c) <= 8) by {
        if find_dcolon(c) > 8 {
            assert(!(c[8] == ':' && c[9] == ':'));
        }
    }
}

/// The elements of `s` joined with single newlines between them.
pub open spec fn join_nl(s: Seq<Seq<char>>) -> Seq<char>
    decreases s.len(),
{
    if s.len() == 0 {
        Seq::empty()
    } else if s.len() == 1 {
        s[0]
    } else {
        join_nl(s.drop_last()) + seq!['\n'] + s.last()
    }
}

/// Joins lines with newlines.
fn join_nl_exec(v: &Vec<Vec<char>>) -> (r: Vec<char>)
    ensures
        r@ == join_nl(v.deep_view()),
{
    let ghost dv = v.deep_view();
    let mut r: Vec<char> = Vec::new();
    let mut i: usize = 0;
    proof {
        assert(dv.take(0).len() == 0);
        assert(r@ =~= join_nl(dv.take(0)));
    }
    while i < v.len()
        invariant
            i <= dv.len(),
            dv == v.deep_view(),
            dv.len() == v@.len(),
            r@ == join_nl(dv.take(i as int)),
        decreases dv.len() - i,
    {
        proof {
            assert(dv[i as int] == v@[i as int].deep_view());
            assert(v@[i as int].deep_view() =~= v@[i as int]@);
        }
        if i > 0 {
            r.push('\n');
        }
        push_chars(&mut r, &v[i]);
        i = i + 1;
        proof {
            assert(dv.take(i as int).drop_last() =~= dv.take(i - 1));
            assert(dv.take(i as int).last() == dv[i - 1]);
            if i == 1 {
                assert(r@ =~= join_nl(dv.take(1)));
            } else {
                assert(r@ =~= join_nl(dv.take(i - 1)) + seq!['\n'] + dv[i - 1]);
            }
        }
    }
    proof {
        assert(dv.take(dv.len() as int) =~= dv);
    }
    r
}

/// The file stem of a path: its last segment, with a trailing file suffix
/// removed.
pub open spec fn stem_of(path: Seq<char>) -> Seq<char> {
    let name = path.skip(rfind_char(path, '/') + 1);
    if ends_rs(name) {
        name.take(name.len() - 3)
    } else {
        name
    }
}

pub open spec fn indent4() -> Seq<char> {
    seq![' ', ' ', ' ', ' ']
}

/// A non-entrypoint module's text, re-indented one level and wrapped in a
/// namespace block named after the module's file stem.
pub open spec fn wrap_module(path: Seq<char>, gen: Seq<char>) -> Seq<char> {
    seq!['m', 'o', 'd', ' '] + stem_of(path) + seq![' ', '{', '\n'] + join_nl(
        spec_lines(gen).map_values(|l: Seq<char>| indent4() + l),
    ) + seq!['\n', '}']
}

/// Prefixes every line with one level of indentation.
fn indent_lines(lines: &Vec<Vec<char>>) -> (r: Vec<Vec<char>>)
    ensures
        r.deep_view() == lines.deep_view().map_values(|l: Seq<char>| indent4() + l),
{
    let mut ind: Vec<Vec<char>> = Vec::new();
    let ghost lv = lines.deep_view();
    let mut i: usize = 0;
    proof {
        assert(ind.deep_view() =~~= lv.take(0).map_values(|l: Seq<char>| indent4() + l));
    }
    while i < lines.len()
        invariant
            i <= lv.len(),
            lv == lines.deep_view(),
            lv.len() == lines@.len(),
            ind.deep_view() == lv.take(i as int).map_values(|l: Seq<char>| indent4() + l),
        decreases lv.len() - i,
    {
        proof {
            assert(lv[i as int] == lines@[i as int].deep_view());
            assert(lines@[i as int].deep_view() =~= lines@[i as int]@);
        }
        let mut one: Vec<char> = Vec::new();
        one.push(' ');
        one.push(' ');
        one.push(' ');
        one.push(' ');
        push_chars(&mut one, &lines[i]);
        let ghost prev = ind.deep_view();
        ind.push(one);
        i = i + 1;
        proof {
            assert(one@ =~= indent4() + lv[i - 1]);
            assert(ind.deep_view() =~~= prev.push(indent4() + lv[i - 1]));
            assert(lv.take(i as int) =~= lv.take(i - 1).push(lv[i - 1]));
            assert(lv.take(i as int).map_values(|l: Seq<char>| indent4() + l) =~= lv.take(
                i - 1,
            ).map_values(|l: Seq<char>| indent4() + l).push(indent4() + lv[i - 1]));
        }
    }
    proof {
        assert(lv.take(lv.len() as int) =~= lv);
    }
    ind
}

/// Wraps a module's rewritten text in its namespace block.
fn wrap_module_exec(path: &Vec<char>, gen: &Vec<char>) -> (r: Vec<char>)
    ensures
        r@ == wrap_module(path@, gen@),
{
    // the file stem: last path segment, trailing suffix removed
    proof {
        crate::text::lemma_rfind_char(path@, '/');
    }
    let pn = path.len();
    let name_start: usize = match rfind(path, '/') {
        Some(i) => i + 1,
        None => 0,
    };
    let name = subvec(path, name_start, pn);
    proof {
        assert(name@ =~= path@.skip(rfind_char(path@, '/') + 1));
    }
    let nn = name.len();
    let is_rs = nn >= 3 && name[nn - 3] == '.' && name[nn - 2] == 'r' && name[nn - 1] == 's';
    proof {
        assert(is_rs == ends_rs(name@)) by {
            if nn >= 3 {
                assert(name@.skip(nn - 3).len() == 3);
                assert(name@.skip(nn - 3)[0] == name@[nn - 3]);
                assert(name@.skip(nn - 3)[1] == name@[nn - 2]);
                assert(name@.skip(nn - 3)[2] == name@[nn - 1]);
                if is_rs {
                    assert(name@.skip(nn - 3) =~= rs_suffix());
                }
            }
        }
    }
    let stem = if is_rs {
        subvec(&name, 0, nn - 3)
    } else {
        subvec(&name, 0, nn)
    };
    proof {
        assert(stem@ =~= stem_of(path@));
    }
    // indent every line one level
    let lines = split_lines(gen);
    let ind = indent_lines(&lines);
    let joined = join_nl_exec(&ind);
    // assemble the namespace block
    let mut r: Vec<char> = Vec::new();
    r.push('m');
    r.push('o');
    r.push('d');
    r.push(' ');
    push_chars(&mut r, &stem);
    r.push(' ');
    r.push('{');
    r.push('\n');
    push_chars(&mut r, &joined);
    r.push('\n');
    r.push('}');
    proof {
        assert(r@ =~= wrap_module(path@, gen@));
    }
    r
}

/// The rewritten text of one module: its rewritten import lines joined by
/// newlines, directly followed by its non-import body; wrapped in a
/// namespace block unless the module is the entrypoint. `None` marks a
/// structural parse failure.
#[verifier::opaque]
pub open spec fn render_module(path: Seq<char>, text: Seq<char>, root: bool) -> Option<Seq<char>> {
    match classify(init_class(), spec_lines(text)) {
        None => None,
        Some(st) => if !dirs_ok(st.uses) {
            None
        } else {
            let gen = join_nl(dirs_imports(st.uses, root)) + st.body;
            Some(
                if root {
                    gen
                } else {
                    wrap_module(path, gen)
                },
            )
        },
    }
}

/// The containing-module file references a module's text asks to resolve.
#[verifier::opaque]
pub open spec fn module_refs(text: Seq<char>) -> Seq<Seq<char>> {
    match classify(init_class(), spec_lines(text)) {
        None => Seq::empty(),
        Some(st) => dirs_refs(st.uses),
    }
}

/// A module that can be fully rewritten: it resolves in the table, its
/// lines classify, and every root directive of it parses. Whether the
/// module is the entrypoint makes no difference to this.
pub open spec fn module_ok(table: Seq<(Seq<char>, Seq<char>)>, k: Seq<char>) -> bool {
    &&& resolve(table, k) is Some
    &&& match classify(init_class(), spec_lines(resolve(table, k).unwrap())) {
        Some(st) => dirs_ok(st.uses),
        None => false,
    }
}

/// A set of module keys the bundler can drive to completion: every key
/// names a module that rewrites cleanly and references only keys inside
/// the set. An acyclic, fully resolvable import closure is such a set, and
/// on one the engine owes success.
pub open spec fn covers(table: Seq<(Seq<char>, Seq<char>)>, ks: Set<Seq<char>>) -> bool {
    forall|k: Seq<char>| #[trigger]
        ks.contains(k) ==> module_ok(table, k) && (forall|q: Seq<char>| #[trigger]
            module_refs(resolve(table, k).unwrap()).contains(q) ==> ks.contains(q))
}

/// Registry well-formedness: no module is registered twice, and every
/// registered reference resolves in the table.
pub open spec fn reg_wf(reg: Seq<(Seq<char>, Seq<char>)>, table: Seq<(Seq<char>, Seq<char>)>) -> bool {
    &&& tbl_keys(reg).no_duplicates()
    &&& forall|i: int| 0 <= i < reg.len() ==> resolve(table, #[trigger] reg[i].0) is Some
}

/// Every file reference of the module registered under `k` is itself
/// registered.
pub open spec fn refs_closed(
    table: Seq<(Seq<char>, Seq<char>)>,
    v: Seq<(Seq<char>, Seq<char>)>,
    k: Seq<char>,
) -> bool {
    forall|r: Seq<char>|
        #[trigger] module_refs(resolve(table, k).unwrap()).contains(r) ==> tbl_keys(v).contains(r)
}

/// A registry can never hold more than two entries per table file: each
/// registered reference resolves either directly or through its unique
/// directory-index fallback.
pub proof fn lemma_reg_bound(reg: Seq<(Seq<char>, Seq<char>)>, table: Seq<(Seq<char>, Seq<char>)>)
    requires
        reg_wf(reg, table),
    ensures
        reg.len() <= 2 * table.len(),
{
    broadcast use vstd::set::group_set_axioms;

    let ks = tbl_keys(reg);
    assert(ks.len() == reg.len());
    let kset = ks.to_set();
    ks.unique_seq_to_set();
    let ts = tbl_keys(table);
    let tset = ts.to_set();
    ts.lemma_cardinality_of_set();
    let aset = kset.intersect(tset);
    let bset = kset.difference(tset);
    assert(kset =~= aset.union(bset));
    vstd::set_lib::lemma_len_union(aset, bset);
    vstd::set_lib::lemma_len_subset(aset, tset);
    // every key outside the table resolves through its fallback
    assert forall|k: Seq<char>| bset.contains(k) implies ends_rs(k) && tset.contains(
        mod_fallback(k),
    ) by {
        let i = choose|i: int| 0 <= i < ks.len() && ks[i] == k;
        assert(reg[i].0 == k);
        assert(resolve(table, k) is Some);
        lemma_tbl_lookup(table, k);
        lemma_tbl_lookup(table, mod_fallback(k));
    }
    let f = |k: Seq<char>| mod_fallback(k);
    assert(vstd::relations::injective_on(f, bset)) by {
        assert forall|k1: Seq<char>, k2: Seq<char>|
            #![trigger bset.contains(k1), bset.contains(k2)]
            bset.contains(k1) && bset.contains(k2) && f(k1) == f(k2) implies k1 == k2 by {
            assert(mod_fallback(k1).len() == k1.len() + 4);
            assert(mod_fallback(k2).len() == k2.len() + 4);
            assert(k1.len() == k2.len());
            let n = k1.len() as int;
            assert forall|j: int| 0 <= j < n implies k1[j] == k2[j] by {
                if j < n - 3 {
                    assert(mod_fallback(k1)[j] == k1[j]);
                    assert(mod_fallback(k2)[j] == k2[j]);
                } else {
                    assert(k1.skip(n - 3) == rs_suffix());
                    assert(k2.skip(n - 3) == rs_suffix());
                    assert(k1.skip(n - 3)[j - (n - 3)] == k1[j]);
                    assert(k2.skip(n - 3)[j - (n - 3)] == k2[j]);
                }
            }
            assert(k1 =~= k2);
        }
    }
    let bimg = bset.map(f);
    vstd::set_lib::lemma_map_size(bset, bimg, f);
    assert(bimg.subset_of(tset));
    vstd::set_lib::lemma_len_subset(bimg, tset);
    vstd::set_lib::lemma_len_subset(bset, kset);
}

/// What a completed expansion of `path` guarantees: the registry grew only
/// at the end, earlier entries kept their place and (except `path` itself)
/// their text, `path` and every newly discovered module hold their exact
/// rewritten text, every reference of a completed module is registered,
/// and every new module was named by a strictly earlier module's imports.
pub open spec fn parse_file_post(
    v0: Seq<(Seq<char>, Seq<char>)>,
    v: Seq<(Seq<char>, Seq<char>)>,
    table: Seq<(Seq<char>, Seq<char>)>,
    path: Seq<char>,
    text: Seq<char>,
    root: bool,
) -> bool {
    &&& v.len() >= v0.len()
    &&& forall|i: int| 0 <= i < v0.len() ==> (#[trigger] v[i]).0 == v0[i].0
    &&& forall|i: int| 0 <= i < v0.len() && v0[i].0 != path ==> (#[trigger] v[i]).1 == v0[i].1
    &&& forall|i: int|
        0 <= i < v0.len() && v0[i].0 == path ==> Some((#[trigger] v[i]).1) == render_module(
            path,
            text,
            root,
        )
    &&& reg_wf(v, table)
    &&& forall|i: int|
        v0.len() <= i < v.len() ==> Some((#[trigger] v[i]).1) == render_module(
            v[i].0,
            resolve(table, v[i].0).unwrap(),
            false,
        )
    &&& forall|i: int|
        v0.len() <= i < v.len() ==> exists|j: int|
            0 <= j < i && module_refs(resolve(table, (#[trigger] v[j]).0).unwrap()).contains(
                (#[trigger] v[i]).0,
            )
    &&& forall|i: int| v0.len() <= i < v.len() ==> refs_closed(table, v, (#[trigger] v[i]).0)
    &&& refs_closed(table, v, path)
}

pub proof fn lemma_dirs_refs_contains(uses: Seq<Seq<char>>, d: int, x: Seq<char>)
    requires
        0 <= d < uses.len(),
        dir_refs(uses[d]).contains(x),
    ensures
        dirs_refs(uses).contains(x),
    decreases uses.len(),
{
    if d == uses.len() - 1 {
        let i = choose|i: int| 0 <= i < dir_refs(uses.last()).len() && dir_refs(uses.last())[i] == x;
        assert(dirs_refs(uses)[dirs_refs(uses.drop_last()).len() + i] == x);
    } else {
        assert(uses.drop_last()[d] == uses[d]);
        lemma_dirs_refs_contains(uses.drop_last(), d, x);
        let i = choose|i: int|
            0 <= i < dirs_refs(uses.drop_last()).len() && dirs_refs(uses.drop_last())[i] == x;
        assert(dirs_refs(uses)[i] == x);
    }
}

pub proof fn lemma_dirs_refs_origin(uses: Seq<Seq<char>>, x: Seq<char>)
    requires
        dirs_refs(uses).contains(x),
    ensures
        exists|d: int| 0 <= d < uses.len() && dir_refs(#[trigger] uses[d]).contains(x),
    decreases uses.len(),
{
    let i = choose|i: int| 0 <= i < dirs_refs(uses).len() && dirs_refs(uses)[i] == x;
    let pre = dirs_refs(uses.drop_last());
    if i < pre.len() {
        assert(pre[i] == x);
        lemma_dirs_refs_origin(uses.drop_last(), x);
        let d = choose|d: int|
            0 <= d < uses.drop_last().len() && dir_refs(#[trigger] uses.drop_last()[d]).contains(x);
        assert(uses[d] == uses.drop_last()[d]);
        assert(dir_refs(uses[d]).contains(x));
    } else {
        assert(dir_refs(uses.last())[i - pre.len()] == x);
        assert(dir_refs(uses[uses.len() - 1]).contains(x));
    }
}

pub proof fn lemma_dirs_imports_snoc(uses: Seq<Seq<char>>, u: Seq<char>, root: bool)
    ensures
        dirs_imports(uses.push(u), root) == dirs_imports(uses, root) + dir_imports(u, root),
        dirs_refs(uses.push(u)) == dirs_refs(uses) + dir_refs(u),
{
    assert(uses.push(u).drop_last() =~= uses);
    assert(uses.push(u).last() == u);
}

/// The registry frame an expansion in progress maintains: entries present
/// at the start keep their place and text, and every entry appended since
/// is a fully expanded module that a strictly earlier module's imports
/// named.
pub open spec fn reg_extends(
    v0: Seq<(Seq<char>, Seq<char>)>,
    v: Seq<(Seq<char>, Seq<char>)>,
    table: Seq<(Seq<char>, Seq<char>)>,
) -> bool {
    &&& v.len() >= v0.len()
    &&& forall|i: int| 0 <= i < v0.len() ==> #[trigger] v[i] == v0[i]
    &&& reg_wf(v, table)
    &&& forall|i: int|
        v0.len() <= i < v.len() ==> Some((#[trigger] v[i]).1) == render_module(
            v[i].0,
            resolve(table, v[i].0).unwrap(),
            false,
        )
    &&& forall|i: int|
        v0.len() <= i < v.len() ==> exists|j: int|
            0 <= j < i && module_refs(resolve(table, (#[trigger] v[j]).0).unwrap()).contains(
                (#[trigger] v[i]).0,
            )
    &&& forall|i: int| v0.len() <= i < v.len() ==> refs_closed(table, v, (#[trigger] v[i]).0)
}

/// Appends copies of all of `src`'s lines to `dst`.
fn append_all(dst: &mut Vec<Vec<char>>, src: &Vec<Vec<char>>)
    ensures
        final(dst).deep_view() == old(dst).deep_view() + src.deep_view(),
{
    let ghost sv = src.deep_view();
    let mut i: usize = 0;
    proof {
        assert(dst.deep_view() =~~= old(dst).deep_view() + sv.take(0));
    }
    while i < src.len()
        invariant
            i <= sv.len(),
            sv == src.deep_view(),
            sv.len() == src@.len(),
            dst.deep_view() == old(dst).deep_view() + sv.take(i as int),
        decreases sv.len() - i,
    {
        proof {
            assert(sv[i as int] == src@[i as int].deep_view());
            assert(src@[i as int].deep_view() =~= src@[i as int]@);
        }
        let one = subvec(&src[i], 0, src[i].len());
        let ghost prev = dst.deep_view();
        dst.push(one);
        i = i + 1;
        proof {
            assert(one@ =~= sv[i - 1]);
            assert(dst.deep_view() =~~= prev.push(sv[i - 1]));
            assert(old(dst).deep_view() + sv.take(i as int) =~~= (old(dst).deep_view() + sv.take(
                i - 1,
            )).push(sv[i - 1]));
        }
    }
    proof {
        assert(sv.take(sv.len() as int) =~= sv);
    }
}

/// The final assembly: every module's expanded text in registry order,
/// each block followed by a newline.
pub open spec fn assemble(v: Seq<(Seq<char>, Seq<char>)>) -> Seq<char>
    decreases v.len(),
{
    if v.len() == 0 {
        Seq::empty()
    } else {
        assemble(v.drop_last()) + v.last().1 + seq!['\n']
    }
}

/// What one successful bundling run guarantees of its registry `v`: the
/// entrypoint stands first and unwrapped; every module appears exactly
/// once, resolves in the table, and holds its exact rewritten text (every
/// non-entrypoint module namespace-wrapped); every file reference of every
/// emitted module is itself in the registry, so nothing points outside the
/// output; and every module except the entrypoint was named by a strictly
/// earlier module's imports, so only reachable modules are emitted and no
/// block ever needs a forward reference.
pub open spec fn engine_post(
    table: Seq<(Seq<char>, Seq<char>)>,
    entry: Seq<char>,
    v: Seq<(Seq<char>, Seq<char>)>,
) -> bool {
    &&& v.len() >= 1
    &&& v[0].0 == entry
    &&& tbl_keys(v).no_duplicates()
    &&& forall|i: int| 0 <= i < v.len() ==> resolve(table, (#[trigger] v[i]).0) is Some
    &&& Some(v[0].1) == render_module(entry, resolve(table, entry).unwrap(), true)
    &&& forall|i: int|
        1 <= i < v.len() ==> Some((#[trigger] v[i]).1) == render_module(
            v[i].0,
            resolve(table, v[i].0).unwrap(),
            false,
        )
    &&& forall|i: int| 0 <= i < v.len() ==> refs_closed(table, v, (#[trigger] v[i]).0)
    &&& forall|i: int|
        1 <= i < v.len() ==> exists|j: int|
            0 <= j < i && module_refs(resolve(table, (#[trigger] v[j]).0).unwrap()).contains(
                (#[trigger] v[i]).0,
            )
}

/// A registry meeting the full guarantee is, as a key set, a cover that
/// holds the entrypoint: each registered module rewrites cleanly and
/// references only registered modules.
pub proof fn lemma_engine_post_covers(
    table: Seq<(Seq<char>, Seq<char>)>,
    entry: Seq<char>,
    v: Seq<(Seq<char>, Seq<char>)>,
)
    requires
        engine_post(table, entry, v),
    ensures
        covers(table, tbl_keys(v).to_set()),
        tbl_keys(v).to_set().contains(entry),
{
    reveal(render_module);
    let ks = tbl_keys(v).to_set();
    assert(tbl_keys(v)[0] == v[0].0);
    assert(tbl_keys(v).contains(entry));
    assert forall|k: Seq<char>| #[trigger] ks.contains(k) implies module_ok(table, k) && (
    forall|q: Seq<char>| #[trigger]
        module_refs(resolve(table, k).unwrap()).contains(q) ==> ks.contains(q)) by {
        let i = choose|i: int| 0 <= i < tbl_keys(v).len() && tbl_keys(v)[i] == k;
        assert(v[i].0 == k);
        assert(resolve(table, k) is Some);
        if i == 0 {
            assert(Some(v[0].1) == render_module(entry, resolve(table, entry).unwrap(), true));
        } else {
            assert(Some(v[i].1) == render_module(k, resolve(table, k).unwrap(), false));
        }
        assert(module_ok(table, k));
        assert(refs_closed(table, v, v[i].0));
        assert forall|q: Seq<char>| #[trigger]
            module_refs(resolve(table, k).unwrap()).contains(q) implies ks.contains(q) by {
            assert(tbl_keys(v).contains(q));
        }
    }
}

/// Key membership survives any extension that keeps existing entries in
/// place.
pub proof fn lemma_contains_preserved(
    vpre: Seq<(Seq<char>, Seq<char>)>,
    vnow: Seq<(Seq<char>, Seq<char>)>,
    r: Seq<char>,
)
    requires
        vnow.len() >= vpre.len(),
        forall|i: int| 0 <= i < vpre.len() ==> (#[trigger] vnow[i]).0 == vpre[i].0,
        tbl_keys(vpre).contains(r),
    ensures
        tbl_keys(vnow).contains(r),
{
    let i = choose|i: int| 0 <= i < tbl_keys(vpre).len() && tbl_keys(vpre)[i] == r;
    assert(tbl_keys(vpre)[i] == vpre[i].0);
    assert(tbl_keys(vnow)[i] == vnow[i].0);
}

/// Composition step of the expansion: registering a newly referenced
/// module and fully expanding it preserves the registry frame, and the new
/// key ends up registered.
pub proof fn lemma_extend_after_expand(
    v0: Seq<(Seq<char>, Seq<char>)>,
    vpre: Seq<(Seq<char>, Seq<char>)>,
    vnow: Seq<(Seq<char>, Seq<char>)>,
    table: Seq<(Seq<char>, Seq<char>)>,
    path: Seq<char>,
    text: Seq<char>,
    k: Seq<char>,
    ktext: Seq<char>,
    uv: Seq<Seq<char>>,
    d: int,
)
    requires
        reg_extends(v0, vpre, table),
        !tbl_keys(vpre).contains(k),
        resolve(table, k) == Some(ktext),
        parse_file_post(vpre.push((k, Seq::<char>::empty())), vnow, table, k, ktext, false),
        tbl_keys(vpre).contains(path),
        resolve(table, path) == Some(text),
        classify(init_class(), spec_lines(text)) matches Some(st) && st.uses == uv,
        0 <= d < uv.len(),
        dir_refs(uv[d]).contains(k),
    ensures
        reg_extends(v0, vnow, table),
        vnow.len() > vpre.len(),
        forall|i: int| 0 <= i < vpre.len() ==> #[trigger] vnow[i] == vpre[i],
        tbl_keys(vnow).contains(k),
{
    let vpush = vpre.push((k, Seq::<char>::empty()));
    assert(tbl_keys(vpush) =~= tbl_keys(vpre).push(k));
    // entries present before the push kept key and text
    assert forall|i: int| 0 <= i < vpre.len() implies #[trigger] vnow[i] == vpre[i] by {
        assert(vnow[i].0 == vpush[i].0);
        assert(tbl_keys(vpre)[i] == vpre[i].0);
        assert(vpush[i].0 != k);
        assert(vnow[i].1 == vpush[i].1);
    }
    // the pushed entry now holds its rewritten text
    assert(vnow[vpre.len() as int].0 == vpush[vpre.len() as int].0);
    assert(vnow[vpre.len() as int].0 == k);
    assert(Some(vnow[vpre.len() as int].1) == render_module(k, ktext, false));
    assert(tbl_keys(vnow)[vpre.len() as int] == k);
    // the pushed entry was named by `path`'s imports
    reveal(module_refs);
    lemma_dirs_refs_contains(uv, d, k);
    assert(module_refs(text).contains(k));
    let jp = choose|j: int| 0 <= j < tbl_keys(vpre).len() && tbl_keys(vpre)[j] == path;
    assert(vpre[jp].0 == path);
    assert(vnow[jp].0 == path);
    assert(module_refs(resolve(table, vnow[jp].0).unwrap()).contains(vnow[vpre.len() as int].0));
    // every appended entry was named by a strictly earlier module and
    // stays closed
    assert(0 <= jp < vpre.len());
    assert forall|i: int|
        #![trigger vnow[i]]
        v0.len() <= i < vnow.len() implies exists|j: int|
        0 <= j < i && module_refs(resolve(table, (#[trigger] vnow[j]).0).unwrap()).contains(
            vnow[i].0,
        ) by {
        if i < vpre.len() {
            let j0 = choose|j: int|
                0 <= j < i && module_refs(resolve(table, (#[trigger] vpre[j]).0).unwrap()).contains(
                    vpre[i].0,
                );
            assert(vnow[j0].0 == vpre[j0].0);
            assert(module_refs(resolve(table, vnow[j0].0).unwrap()).contains(vnow[i].0));
        } else if i == vpre.len() {
            assert(module_refs(resolve(table, vnow[jp].0).unwrap()).contains(vnow[i].0));
        }
    }
    assert forall|i: int| v0.len() <= i < vnow.len() implies refs_closed(
        table,
        vnow,
        (#[trigger] vnow[i]).0,
    ) by {
        if i < vpre.len() {
            assert(vnow[i].0 == vpre[i].0);
            assert(refs_closed(table, vpre, vpre[i].0));
            assert forall|q: Seq<char>| #[trigger]
                module_refs(resolve(table, vnow[i].0).unwrap()).contains(q) implies tbl_keys(
                vnow,
            ).contains(q) by {
                lemma_contains_preserved(vpre, vnow, q);
            }
        }
    }
    assert forall|i: int|
        #![trigger vnow[i]]
        v0.len() <= i < vnow.len() implies Some(vnow[i].1) == render_module(
        vnow[i].0,
        resolve(table, vnow[i].0).unwrap(),
        false,
    ) by {
        if i < vpre.len() {
            assert(vnow[i] == vpre[i]);
        } else if i == vpre.len() {
        } else {
        }
    }
}

/// One bundling run: the registry of modules reached from the entrypoint,
/// in first-discovery order, each with its rewritten text.
pub struct FileExpand {
    keys: Vec<Vec<char>>,
    texts: Vec<Vec<char>>,
}

impl View for FileExpand {
    type V = Seq<(Seq<char>, Seq<char>)>;

    closed spec fn view(&self) -> Seq<(Seq<char>, Seq<char>)> {
        Seq::new(self.keys@.len(), |i: int| (self.keys@[i]@, self.texts@[i]@))
    }
}

impl FileExpand {
    /// Both columns line up.
    closed spec fn cols_ok(&self) -> bool {
        self.keys@.len() == self.texts@.len()
    }

    /// The position of a registered key.
    fn reg_index_of(&self, k: &Vec<char>) -> (i: usize)
        requires
            self.cols_ok(),
            tbl_keys(self@).contains(k@),
        ensures
            i < self@.len(),
            self@[i as int].0 == k@,
    {
        let n = self.keys.len();
        let mut i: usize = 0;
        while i < n
            invariant
                self.cols_ok(),
                i <= n == self.keys@.len(),
                tbl_keys(self@).contains(k@),
                forall|j: int| 0 <= j < i ==> tbl_keys(self@)[j] != k@,
            decreases n - i,
        {
            proof {
                assert(tbl_keys(self@)[i as int] == self.keys@[i as int]@);
            }
            if chars_eq(&self.keys[i], k) {
                return i;
            }
            i = i + 1;
        }
        proof {
            let j = choose|j: int| 0 <= j < tbl_keys(self@).len() && tbl_keys(self@)[j] == k@;
            assert(false);
        }
        0
    }

    /// Drives one module from Discovered to Expanded: classifies its
    /// lines, parses each import directive, recursively expands every
    /// newly referenced module, and finally stores the module's rewritten
    /// text. The module's key is registered before this runs; that gating
    /// is what keeps mutual or repeated references from expanding twice.
    #[verifier::rlimit(100)]
    fn parse_file(
        &mut self,
        table: &FileTable,
        path: &Vec<char>,
        text: &Vec<char>,
        root: bool,
    ) -> (r: Result<(), ExpandError>)
        requires
            table.wf(),
            old(self).cols_ok(),
            reg_wf(old(self)@, table@),
            tbl_keys(old(self)@).contains(path@),
            resolve(table@, path@) == Some(text@),
        ensures
            final(self).cols_ok(),
            match r {
                Ok(()) => parse_file_post(old(self)@, final(self)@, table@, path@, text@, root),
                Err(e) => e == ExpandError::StructuralParse || e == ExpandError::ModuleResolution,
            },
            (exists|ks: Set<Seq<char>>| covers(table@, ks) && ks.contains(path@)) ==> r is Ok,
        decreases 2 * table@.len() - self@.len(), 3int,
    {
        let ghost v0 = self@;
        let lines = split_lines(text);
        let (uses, body) = match classify_exec(&lines) {
            Ok(x) => x,
            Err(e) => {
                // a module whose lines do not classify belongs to no cover
                proof {
                    assert forall|ks: Set<Seq<char>>| !(covers(table@, ks) && ks.contains(
                        path@,
                    )) by {
                        if covers(table@, ks) && ks.contains(path@) {
                            assert(module_ok(table@, path@));
                            assert(resolve(table@, path@).unwrap() == text@);
                        }
                    }
                }
                return Err(e);
            },
        };
        let ghost uv = uses.deep_view();
        let lit_use_crate_v = str_to_chars("use crate::");
        let lit_use_v = str_to_chars("use");
        proof {
            reveal_strlit("use crate::");
            reveal_strlit("use");
            assert(lit_use_crate_v@ =~= lit_use_crate());
            assert(lit_use_v@ =~= lit_use());
        }
        let mut all_imports: Vec<Vec<char>> = Vec::new();
        proof {
            assert(uv.take(0).len() == 0);
            assert(all_imports.deep_view() =~~= dirs_imports(uv.take(0), root));
        }
        let mut d: usize = 0;
        while d < uses.len()
            invariant
                table.wf(),
                self.cols_ok(),
                v0 == old(self)@,
                d <= uv.len(),
                uv == uses.deep_view(),
                uv.len() == uses@.len(),
                lit_use_crate_v@ == lit_use_crate(),
                lit_use_v@ == lit_use(),
                classify(init_class(), spec_lines(text@)) matches Some(st) && st.uses == uv
                    && st.body == body@,
                reg_extends(v0, self@, table@),
                tbl_keys(self@).contains(path@),
                resolve(table@, path@) == Some(text@),
                all_imports.deep_view() == dirs_imports(uv.take(d as int), root),
                forall|y: int| 0 <= y < d ==> directive_ok(#[trigger] uv[y]),
                forall|y: int, q: Seq<char>|
                    #![trigger dir_refs(uv[y]).contains(q)]
                    0 <= y < d && dir_refs(uv[y]).contains(q) ==> tbl_keys(self@).contains(q),
            decreases uv.len() - d,
        {
            let u = &uses[d];
            proof {
                assert(uv[d as int] == uses@[d as int].deep_view());
                assert(uses@[d as int].deep_view() =~= uses@[d as int]@);
                assert(u@ == uv[d as int]);
                lemma_dirs_imports_snoc(uv.take(d as int), uv[d as int], root);
                assert(uv.take(d + 1) =~= uv.take(d as int).push(uv[d as int]));
            }
            let ghost vdir = self@;
            proof {
                lemma_reg_bound(self@, table@);
                assert(self@.len() >= v0.len());
                assert(0 <= 2 * table@.len() - self@.len());
                assert(2 * table@.len() - self@.len() <= 2 * table@.len() - v0.len());
            }
            match self.process_directive(
                table,
                u,
                &mut all_imports,
                path,
                root,
                Ghost(v0),
                Ghost(text@),
                Ghost(uv),
                Ghost(d as int),
            ) {
                Ok(()) => {},
                Err(e) => {
                    return Err(e);
                },
            }
            proof {
                assert(all_imports.deep_view() =~~= dirs_imports(uv.take(d + 1), root));
                lemma_contains_preserved(vdir, self@, path@);
                assert forall|y: int, q: Seq<char>|
                    #![trigger dir_refs(uv[y]).contains(q)]
                    0 <= y < d && dir_refs(uv[y]).contains(q) implies tbl_keys(self@).contains(
                    q,
                ) by {
                    lemma_contains_preserved(vdir, self@, q);
                }
            }
            d = d + 1;
        }
        proof {
            assert(uv.take(uv.len() as int) =~= uv);
        }
        // this module's rewritten text: imports joined by newlines, then
        // the body; wrapped unless this is the entrypoint
        let joined = join_nl_exec(&all_imports);
        let mut generated = joined;
        push_chars(&mut generated, &body);
        let gen_final = if root {
            generated
        } else {
            wrap_module_exec(path, &generated)
        };
        let ghost vdone = self@;
        let idx = self.reg_index_of(path);
        let slot = &mut self.texts[idx];
        *slot = gen_final;
        proof {
            let vfin = self@;
            assert(vfin =~~= vdone.update(idx as int, (path@, gen_final@)));
            assert(tbl_keys(vfin) =~= tbl_keys(vdone));
            reveal(render_module);
            reveal(module_refs);
            let ghost gen = join_nl(dirs_imports(uv, root)) + body@;
            assert(generated@ == gen);
            assert(dirs_ok(uv));
            assert(render_module(path@, text@, root) == Some(gen_final@));
            // the unique position of `path`
            assert forall|i: int| 0 <= i < v0.len() && v0[i].0 == path@ implies i == idx by {
                assert(tbl_keys(vdone)[i] == vdone[i].0);
                assert(tbl_keys(vdone)[idx as int] == vdone[idx as int].0);
            }
            // the module's references are all registered
            assert forall|q: Seq<char>| #[trigger]
                module_refs(resolve(table@, path@).unwrap()).contains(q) implies tbl_keys(
                vfin,
            ).contains(q) by {
                lemma_dirs_refs_origin(uv, q);
            }
            assert(refs_closed(table@, vfin, path@));
            // appended entries keep everything through the final update
            assert forall|i: int|
                #![trigger vfin[i]]
                v0.len() <= i < vfin.len() implies exists|j: int|
                0 <= j < i && module_refs(
                    resolve(table@, (#[trigger] vfin[j]).0).unwrap(),
                ).contains(vfin[i].0) by {
                assert(idx < v0.len());
                let j0 = choose|j: int|
                    0 <= j < i && module_refs(
                        resolve(table@, (#[trigger] vdone[j]).0).unwrap(),
                    ).contains(vdone[i].0);
                assert(vfin[j0].0 == vdone[j0].0);
            }
            assert forall|i: int| v0.len() <= i < vfin.len() implies refs_closed(
                table@,
                vfin,
                (#[trigger] vfin[i]).0,
            ) by {
                assert(idx < v0.len());
                assert(vfin[i].0 == vdone[i].0);
                assert(refs_closed(table@, vdone, vdone[i].0));
            }
            assert(parse_file_post(v0, vfin, table@, path@, text@, root));
        }
        Ok(())
    }

    /// Handles one accumulated import directive: a root directive is
    /// parsed, its rewritten imports appended and its file references
    /// expanded; any other import is copied through unchanged; anything
    /// else contributes nothing.
    #[verifier::rlimit(100)]
    fn process_directive(
        &mut self,
        table: &FileTable,
        u: &Vec<char>,
        all_imports: &mut Vec<Vec<char>>,
        path: &Vec<char>,
        root: bool,
        Ghost(v0): Ghost<Seq<(Seq<char>, Seq<char>)>>,
        Ghost(text): Ghost<Seq<char>>,
        Ghost(uv): Ghost<Seq<Seq<char>>>,
        Ghost(d): Ghost<int>,
    ) -> (r: Result<(), ExpandError>)
        requires
            table.wf(),
            old(self).cols_ok(),
            reg_extends(v0, old(self)@, table@),
            tbl_keys(old(self)@).contains(path@),
            resolve(table@, path@) == Some(text),
            classify(init_class(), spec_lines(text)) matches Some(st) && st.uses == uv,
            0 <= d < uv.len(),
            u@ == uv[d],
        ensures
            final(self).cols_ok(),
            match r {
                Ok(()) => {
                    &&& reg_extends(v0, final(self)@, table@)
                    &&& final(self)@.len() >= old(self)@.len()
                    &&& forall|i: int|
                        0 <= i < old(self)@.len() ==> #[trigger] final(self)@[i] == old(self)@[i]
                    &&& final(all_imports).deep_view() == old(all_imports).deep_view()
                        + dir_imports(uv[d], root)
                    &&& directive_ok(uv[d])
                    &&& forall|q: Seq<char>|
                        #[trigger] dir_refs(uv[d]).contains(q) ==> tbl_keys(
                            final(self)@,
                        ).contains(q)
                },
                Err(e) => e == ExpandError::StructuralParse || e == ExpandError::ModuleResolution,
            },
            (exists|ks: Set<Seq<char>>| covers(table@, ks) && ks.contains(path@)) ==> r is Ok,
        decreases 2 * table@.len() - v0.len(), 2int,
    {
        let lit_use_crate_v = str_to_chars("use crate::");
        let lit_use_v = str_to_chars("use");
        proof {
            reveal_strlit("use crate::");
            reveal_strlit("use");
            assert(lit_use_crate_v@ =~= lit_use_crate());
            assert(lit_use_v@ =~= lit_use());
        }
        if starts_with(u, &lit_use_crate_v) {
            let cleaned_v = remove_whitespace(u);
            proof {
                lemma_crate_directive_dcolon(u@);
                assert(cleaned_v@ == cleaned(uv[d]));
            }
            let (refs, imports) = match parse_use_chars(&cleaned_v, root) {
                Ok(x) => x,
                Err(e) => {
                    // a failing root directive means this module rewrites
                    // in no cover
                    proof {
                        assert(!directive_ok(uv[d]));
                        assert forall|ks: Set<Seq<char>>| !(covers(table@, ks) && ks.contains(
                            path@,
                        )) by {
                            if covers(table@, ks) && ks.contains(path@) {
                                assert(module_ok(table@, path@));
                                assert(resolve(table@, path@).unwrap() == text);
                                assert(dirs_ok(uv));
                            }
                        }
                    }
                    return Err(e);
                },
            };
            append_all(all_imports, &imports);
            proof {
                assert(dir_imports(uv[d], root) == pu_imports(cleaned(uv[d]), root));
            }
            let ghost rv = refs.deep_view();
            proof {
                lemma_reg_bound(self@, table@);
            }
            match self.expand_refs(table, &refs, path, Ghost(v0), Ghost(text), Ghost(uv), Ghost(d)) {
                Ok(()) => {},
                Err(e) => {
                    return Err(e);
                },
            }
            proof {
                assert forall|q: Seq<char>| #[trigger]
                    dir_refs(uv[d]).contains(q) implies tbl_keys(self@).contains(q) by {
                    let y = choose|y: int| 0 <= y < rv.len() && rv[y] == q;
                }
                assert(directive_ok(uv[d]));
            }
            Ok(())
        } else if starts_with(u, &lit_use_v) {
            // a non-root import is copied through unchanged
            let copy = subvec(u, 0, u.len());
            let ghost prev = all_imports.deep_view();
            all_imports.push(copy);
            proof {
                assert(!is_crate_directive(uv[d]));
                assert(dir_imports(uv[d], root) =~= seq![uv[d]]);
                assert(all_imports.deep_view() =~~= prev.push(uv[d]));
                assert(all_imports.deep_view() =~~= prev + dir_imports(uv[d], root));
                assert(directive_ok(uv[d]));
            }
            Ok(())
        } else {
            proof {
                assert(!is_crate_directive(uv[d]));
                assert(!is_prefix(lit_use(), uv[d]));
                assert(dir_imports(uv[d], root) =~= Seq::<Seq<char>>::empty());
                assert(all_imports.deep_view() =~~= all_imports.deep_view() + dir_imports(
                    uv[d],
                    root,
                ));
                assert(directive_ok(uv[d]));
            }
            Ok(())
        }
    }

    /// Registers one newly referenced module and expands it fully.
    #[verifier::rlimit(100)]
    fn expand_new_ref(
        &mut self,
        table: &FileTable,
        kv: &Vec<char>,
        path: &Vec<char>,
        Ghost(v0): Ghost<Seq<(Seq<char>, Seq<char>)>>,
        Ghost(text): Ghost<Seq<char>>,
        Ghost(uv): Ghost<Seq<Seq<char>>>,
        Ghost(d): Ghost<int>,
    ) -> (r: Result<(), ExpandError>)
        requires
            table.wf(),
            old(self).cols_ok(),
            reg_extends(v0, old(self)@, table@),
            tbl_keys(old(self)@).contains(path@),
            resolve(table@, path@) == Some(text),
            classify(init_class(), spec_lines(text)) matches Some(st) && st.uses == uv,
            0 <= d < uv.len(),
            dir_refs(uv[d]).contains(kv@),
            !tbl_keys(old(self)@).contains(kv@),
        ensures
            final(self).cols_ok(),
            match r {
                Ok(()) => {
                    &&& reg_extends(v0, final(self)@, table@)
                    &&& final(self)@.len() > old(self)@.len()
                    &&& forall|i: int|
                        0 <= i < old(self)@.len() ==> #[trigger] final(self)@[i] == old(self)@[i]
                    &&& tbl_keys(final(self)@).contains(kv@)
                },
                Err(e) => e == ExpandError::StructuralParse || e == ExpandError::ModuleResolution,
            },
            (exists|ks: Set<Seq<char>>| covers(table@, ks) && ks.contains(path@)) ==> r is Ok,
        decreases 2 * table@.len() - v0.len(), 0int,
    {
        // the reference is named by `path`'s imports, so any cover that
        // holds `path` holds it too
        proof {
            lemma_dirs_refs_contains(uv, d, kv@);
            reveal(module_refs);
            assert forall|ks: Set<Seq<char>>|
                covers(table@, ks) && ks.contains(path@) implies ks.contains(kv@) by {
                assert(module_ok(table@, path@));
                assert(resolve(table@, path@).unwrap() == text);
                assert(module_refs(text).contains(kv@));
            }
        }
        // resolve first, register the key, then expand: only resolvable
        // keys ever enter the registry
        let ktext = match table.resolve_module(kv) {
            Ok(t) => t,
            Err(e) => {
                // an unresolvable reference puts `path` outside every cover
                proof {
                    assert forall|ks: Set<Seq<char>>| !(covers(table@, ks) && ks.contains(
                        path@,
                    )) by {
                        if covers(table@, ks) && ks.contains(path@) {
                            assert(ks.contains(kv@));
                            assert(module_ok(table@, kv@));
                        }
                    }
                }
                return Err(e);
            },
        };
        let kcopy = subvec(kv, 0, kv.len());
        let ghost vpre = self@;
        self.keys.push(kcopy);
        self.texts.push(Vec::new());
        let ghost vpush = self@;
        proof {
            assert(vpush =~~= vpre.push((kv@, Seq::<char>::empty())));
            assert(tbl_keys(vpush) =~= tbl_keys(vpre).push(kv@));
            assert(tbl_keys(vpush).drop_last() =~= tbl_keys(vpre));
            assert(reg_wf(vpush, table@));
            lemma_reg_bound(vpush, table@);
            lemma_contains_preserved(vpre, vpush, path@);
            assert(tbl_keys(vpush)[vpre.len() as int] == kv@);
            assert(vpush.len() == vpre.len() + 1);
        }
        match self.parse_file(table, kv, &ktext, false) {
            Ok(()) => {},
            Err(e) => {
                // a cover holding `path` holds the reference too, and the
                // recursive call owes success on it
                proof {
                    assert forall|ks: Set<Seq<char>>| !(covers(table@, ks) && ks.contains(
                        path@,
                    )) by {
                        if covers(table@, ks) && ks.contains(path@) {
                            assert(ks.contains(kv@));
                        }
                    }
                }
                return Err(e);
            },
        }
        proof {
            let vnow = self@;
            assert(vpush == vpre.push((kv@, Seq::<char>::empty())));
            lemma_extend_after_expand(v0, vpre, vnow, table@, path@, text, kv@, ktext@, uv, d);
        }
        Ok(())
    }

    /// Expands every module that one directive's file references name and
    /// that is not yet registered. `text` is the source text of the module
    /// registered under `path` whose directive list `uv` is being
    /// processed, `d` the position of the directive the references came
    /// from.
    #[verifier::rlimit(100)]
    fn expand_refs(
        &mut self,
        table: &FileTable,
        refs: &Vec<Vec<char>>,
        path: &Vec<char>,
        Ghost(v0): Ghost<Seq<(Seq<char>, Seq<char>)>>,
        Ghost(text): Ghost<Seq<char>>,
        Ghost(uv): Ghost<Seq<Seq<char>>>,
        Ghost(d): Ghost<int>,
    ) -> (r: Result<(), ExpandError>)
        requires
            table.wf(),
            old(self).cols_ok(),
            reg_extends(v0, old(self)@, table@),
            tbl_keys(old(self)@).contains(path@),
            resolve(table@, path@) == Some(text),
            classify(init_class(), spec_lines(text)) matches Some(st) && st.uses == uv,
            0 <= d < uv.len(),
            refs.deep_view() == dir_refs(uv[d]),
        ensures
            final(self).cols_ok(),
            match r {
                Ok(()) => {
                    &&& reg_extends(v0, final(self)@, table@)
                    &&& final(self)@.len() >= old(self)@.len()
                    &&& forall|i: int|
                        0 <= i < old(self)@.len() ==> #[trigger] final(self)@[i] == old(self)@[i]
                    &&& forall|y: int|
                        0 <= y < refs.deep_view().len() ==> tbl_keys(final(self)@).contains(
                            #[trigger] refs.deep_view()[y],
                        )
                },
                Err(e) => e == ExpandError::StructuralParse || e == ExpandError::ModuleResolution,
            },
            (exists|ks: Set<Seq<char>>| covers(table@, ks) && ks.contains(path@)) ==> r is Ok,
        decreases 2 * table@.len() - v0.len(), 1int,
    {
        let ghost vstart = self@;
        let ghost rv = refs.deep_view();
        let mut x: usize = 0;
        while x < refs.len()
            invariant
                table.wf(),
                self.cols_ok(),
                x <= rv.len(),
                rv == refs.deep_view(),
                rv.len() == refs@.len(),
                reg_extends(v0, self@, table@),
                self@.len() >= vstart.len(),
                forall|i: int| 0 <= i < vstart.len() ==> #[trigger] self@[i] == vstart[i],
                tbl_keys(self@).contains(path@),
                resolve(table@, path@) == Some(text),
                classify(init_class(), spec_lines(text)) matches Some(st) && st.uses == uv,
                0 <= d < uv.len(),
                rv == dir_refs(uv[d]),
                forall|y: int| 0 <= y < x ==> tbl_keys(self@).contains(#[trigger] rv[y]),
            decreases rv.len() - x,
        {
            let kv = &refs[x];
            proof {
                assert(rv[x as int] == refs@[x as int].deep_view());
                assert(refs@[x as int].deep_view() =~= refs@[x as int]@);
                assert(kv@ == rv[x as int]);
            }
            let ghost vpre = self@;
            if !self.reg_contains(kv) {
                proof {
                    assert(dir_refs(uv[d]).contains(rv[x as int]));
                    lemma_reg_bound(self@, table@);
                    assert(self@.len() >= vstart.len());
                    assert(0 <= 2 * table@.len() - self@.len());
                    assert(2 * table@.len() - self@.len() <= 2 * table@.len() - vstart.len());
                }
                match self.expand_new_ref(
                    table,
                    kv,
                    path,
                    Ghost(v0),
                    Ghost(text),
                    Ghost(uv),
                    Ghost(d),
                ) {
                    Ok(()) => {},
                    Err(e) => {
                        return Err(e);
                    },
                }
                proof {
                    lemma_contains_preserved(vpre, self@, path@);
                    assert forall|y: int| 0 <= y < x implies tbl_keys(self@).contains(
                        #[trigger] rv[y],
                    ) by {
                        lemma_contains_preserved(vpre, self@, rv[y]);
                    }
                }
            }
            x = x + 1;
            proof {
                assert(tbl_keys(self@).contains(rv[x - 1]));
            }
        }
        Ok(())
    }

    /// Bundles the module at `entrypoint` together with the transitive
    /// closure of everything it imports into one text blob: the entrypoint
    /// body unwrapped first, then every other reached module's
    /// namespace-wrapped block, in first-discovery order, each followed by
    /// a newline.
    ///
    /// The result is pinned by [`engine_post`]: every reachable module
    /// appears exactly once, fully rewritten, and no reference of any
    /// emitted module points outside the returned text. Any parse or
    /// resolution failure anywhere in the closure aborts the whole
    /// operation with no output.
    pub fn expand_file(table: &FileTable, entrypoint: &str) -> (r: Result<String, ExpandError>)
        requires
            table.wf(),
        ensures
            match r {
                Ok(out) => exists|v: Seq<(Seq<char>, Seq<char>)>|
                    engine_post(table@, entrypoint@, v) && out@ == assemble(v),
                Err(e) => e == ExpandError::StructuralParse || e == ExpandError::ModuleResolution,
            },
            resolve(table@, entrypoint@) is None ==> r == Err::<String, ExpandError>(
                ExpandError::ModuleResolution,
            ),
            (exists|v: Seq<(Seq<char>, Seq<char>)>| engine_post(table@, entrypoint@, v)) ==> r
                is Ok,
    {
        let entry = str_to_chars(entrypoint);
        let text = match table.resolve_module(&entry) {
            Ok(t) => t,
            Err(e) => {
                proof {
                    assert forall|v: Seq<(Seq<char>, Seq<char>)>| !engine_post(
                        table@,
                        entrypoint@,
                        v,
                    ) by {
                        if engine_post(table@, entrypoint@, v) {
                            assert(resolve(table@, v[0].0) is Some);
                        }
                    }
                }
                return Err(e);
            },
        };
        // register the entrypoint before parsing anything
        let mut this = FileExpand { keys: Vec::new(), texts: Vec::new() };
        this.keys.push(subvec(&entry, 0, entry.len()));
        this.texts.push(Vec::new());
        let ghost v0 = this@;
        proof {
            assert(v0 =~~= seq![(entrypoint@, Seq::<char>::empty())]);
            assert(tbl_keys(v0) =~= seq![entrypoint@]);
            assert(tbl_keys(v0)[0] == entrypoint@);
            assert(tbl_keys(v0).contains(entrypoint@));
            assert(reg_wf(v0, table@));
        }
        match this.parse_file(table, &entry, &text, true) {
            Ok(()) => {},
            Err(e) => {
                // a registry satisfying the full guarantee would be a cover
                // holding the entrypoint, on which parse_file owes success
                proof {
                    assert forall|v: Seq<(Seq<char>, Seq<char>)>| !engine_post(
                        table@,
                        entrypoint@,
                        v,
                    ) by {
                        if engine_post(table@, entrypoint@, v) {
                            lemma_engine_post_covers(table@, entrypoint@, v);
                        }
                    }
                }
                return Err(e);
            },
        }
        let ghost v = this@;
        // final assembly, in first-discovery order
        let mut out: Vec<char> = Vec::new();
        let n = this.keys.len();
        let mut i: usize = 0;
        proof {
            assert(v.take(0).len() == 0);
            assert(out@ =~= assemble(v.take(0)));
        }
        while i < n
            invariant
                i <= n,
                n == this.keys@.len() == this.texts@.len(),
                v == this@,
                out@ == assemble(v.take(i as int)),
            decreases n - i,
        {
            push_chars(&mut out, &this.texts[i]);
            out.push('\n');
            i = i + 1;
            proof {
                assert(v[i - 1].1 == this.texts@[i - 1]@);
                assert(v.take(i as int).drop_last() =~= v.take(i - 1));
                assert(v.take(i as int).last() == v[i - 1]);
                assert(out@ =~= assemble(v.take(i - 1)) + v[i - 1].1 + seq!['\n']);
            }
        }
        proof {
            assert(v.take(v.len() as int) =~= v);
            assert(v0.len() == 1);
            assert(v0[0].0 == entrypoint@);
            assert(engine_post(table@, entrypoint@, v));
        }
        Ok(chars_to_string(&out))
    }

    /// Whether `k` is already registered.
    fn reg_contains(&self, k: &Vec<char>) -> (r: bool)
        requires
            self.cols_ok(),
        ensures
            r == tbl_keys(self@).contains(k@),
    {
        let n = self.keys.len();
        let mut i: usize = 0;
        while i < n
            invariant
                self.cols_ok(),
                i <= n == self.keys@.len(),
                forall|j: int| 0 <= j < i ==> tbl_keys(self@)[j] != k@,
            decreases n - i,
        {
            proof {
                assert(tbl_keys(self@)[i as int] == self.keys@[i as int]@);
            }
            if chars_eq(&self.keys[i], k) {
                proof {
                    assert(tbl_keys(self@)[i as int] == k@);
                }
                return true;
            }
            i = i + 1;
        }
        proof {
            if tbl_keys(self@).contains(k@) {
                let j = choose|j: int| 0 <= j < tbl_keys(self@).len() && tbl_keys(self@)[j] == k@;
            }
        }
        false
    }
}

} // verus!
