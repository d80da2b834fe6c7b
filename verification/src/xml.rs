//! Lexical layer of the GPX reader: byte scanners for the XML subset the
//! parser understands (whitespace, names, quoted attribute values, and
//! skipping over balanced unknown elements).
//!
//! Every executable scanner is proved to return exactly what its spec
//! function says over the byte sequence.

use vstd::prelude::*;
use vstd::slice::slice_subrange;
use vstd::slice::slice_to_vec;

verus! {

/// XML whitespace: space, tab, line feed, carriage return.
pub open spec fn is_ws(b: u8) -> bool {
    b == 32 || b == 9 || b == 10 || b == 13
}

/// A byte that may appear in an element or attribute name.
pub open spec fn is_name_byte(b: u8) -> bool {
    (48 <= b <= 57) || (65 <= b <= 90) || (97 <= b <= 122) || b == 58 || b == 95 || b == 45
        || b == 46
}

/// End of the whitespace run that starts at `i`.
pub open spec fn ws_end(s: Seq<u8>, i: int) -> int
    decreases s.len() - i when 0 <= i <= s.len()
{
    if i < s.len() && is_ws(s[i]) {
        ws_end(s, i + 1)
    } else {
        i
    }
}

/// End of the name-byte run that starts at `i`.
pub open spec fn name_end(s: Seq<u8>, i: int) -> int
    decreases s.len() - i when 0 <= i <= s.len()
{
    if i < s.len() && is_name_byte(s[i]) {
        name_end(s, i + 1)
    } else {
        i
    }
}

/// First position at or after `i` holding byte `q`, or the length.
pub open spec fn scan_to(s: Seq<u8>, i: int, q: u8) -> int
    decreases s.len() - i when 0 <= i <= s.len()
{
    if i < s.len() && s[i] != q {
        scan_to(s, i + 1, q)
    } else {
        i
    }
}

pub proof fn lemma_ws_end(s: Seq<u8>, i: int)
    requires
        0 <= i <= s.len(),
    ensures
        i <= ws_end(s, i) <= s.len(),
        ws_end(s, i) < s.len() ==> !is_ws(s[ws_end(s, i)]),
    decreases s.len() - i,
{
    if i < s.len() && is_ws(s[i]) {
        lemma_ws_end(s, i + 1);
    }
}

pub proof fn lemma_name_end(s: Seq<u8>, i: int)
    requires
        0 <= i <= s.len(),
    ensures
        i <= name_end(s, i) <= s.len(),
        name_end(s, i) < s.len() ==> !is_name_byte(s[name_end(s, i)]),
    decreases s.len() - i,
{
    if i < s.len() && is_name_byte(s[i]) {
        lemma_name_end(s, i + 1);
    }
}

pub proof fn lemma_scan_to(s: Seq<u8>, i: int, q: u8)
    requires
        0 <= i <= s.len(),
    ensures
        i <= scan_to(s, i, q) <= s.len(),
        scan_to(s, i, q) < s.len() ==> s[scan_to(s, i, q)] == q,
    decreases s.len() - i,
{
    if i < s.len() && s[i] != q {
        lemma_scan_to(s, i + 1, q);
    }
}

pub fn ws_end_exec(s: &[u8], from: usize) -> (end: usize)
    requires
        from <= s.len(),
    ensures
        end as int == ws_end(s@, from as int),
        from <= end <= s.len(),
{
    let mut i: usize = from;
    while i < s.len() && (s[i] == 32 || s[i] == 9 || s[i] == 10 || s[i] == 13)
        invariant
            from <= i <= s.len(),
            ws_end(s@, from as int) == ws_end(s@, i as int),
        decreases s.len() - i,
    {
        i = i + 1;
    }
    i
}

pub fn name_end_exec(s: &[u8], from: usize) -> (end: usize)
    requires
        from <= s.len(),
    ensures
        end as int == name_end(s@, from as int),
        from <= end <= s.len(),
{
    let mut i: usize = from;
    while i < s.len() && ((48 <= s[i] && s[i] <= 57) || (65 <= s[i] && s[i] <= 90) || (97 <= s[i]
        && s[i] <= 122) || s[i] == 58 || s[i] == 95 || s[i] == 45 || s[i] == 46)
        invariant
            from <= i <= s.len(),
            name_end(s@, from as int) == name_end(s@, i as int),
        decreases s.len() - i,
    {
        i = i + 1;
    }
    i
}

pub fn scan_to_exec(s: &[u8], from: usize, q: u8) -> (end: usize)
    requires
        from <= s.len(),
    ensures
        end as int == scan_to(s@, from as int, q),
        from <= end <= s.len(),
{
    let mut i: usize = from;
    while i < s.len() && s[i] != q
        invariant
            from <= i <= s.len(),
            scan_to(s@, from as int, q) == scan_to(s@, i as int, q),
        decreases s.len() - i,
    {
        i = i + 1;
    }
    i
}

/// Exact byte-sequence equality, executably.
pub fn bytes_eq(a: &[u8], b: &[u8]) -> (r: bool)
    ensures
        r == (a@ == b@),
{
    if a.len() != b.len() {
        return false;
    }
    let n = a.len();
    let mut i: usize = 0;
    while i < n
        invariant
            0 <= i <= n,
            n == a@.len() == b@.len(),
            forall|k: int| 0 <= k < i ==> a@[k] == b@[k],
        decreases n - i,
    {
        if a[i] != b[i] {
            return false;
        }
        i = i + 1;
    }
    proof {
        assert(a@ =~= b@);
    }
    true
}

/// The attribute list of an open tag, read from just after the tag name:
/// whitespace-separated `name="value"` or `name='value'` pairs up to `>`
/// or `/>`. Yields the pairs, the position after the closing bracket, and
/// whether the tag was self-closing.
pub open spec fn attrs_parse(s: Seq<u8>, i: int, acc: Seq<(Seq<u8>, Seq<u8>)>) -> Option<
    (Seq<(Seq<u8>, Seq<u8>)>, int, bool),
>
    decreases s.len() - i when 0 <= i <= s.len()
    via attrs_parse_dec
{
    let j = ws_end(s, i);
    if j >= s.len() {
        None
    } else if s[j] == 62 {
        Some((acc, j + 1, false))
    } else if s[j] == 47 {
        if j + 1 < s.len() && s[j + 1] == 62 {
            Some((acc, j + 2, true))
        } else {
            None
        }
    } else {
        let ne = name_end(s, j);
        if ne == j {
            None
        } else {
            let k = ws_end(s, ne);
            if k < s.len() && s[k] == 61 {
                let q = ws_end(s, k + 1);
                if q < s.len() && (s[q] == 34 || s[q] == 39) {
                    let ve = scan_to(s, q + 1, s[q]);
                    if ve < s.len() {
                        attrs_parse(s, ve + 1, acc.push((s.subrange(j, ne), s.subrange(q + 1, ve))))
                    } else {
                        None
                    }
                } else {
                    None
                }
            } else {
                None
            }
        }
    }
}

#[via_fn]
proof fn attrs_parse_dec(s: Seq<u8>, i: int, acc: Seq<(Seq<u8>, Seq<u8>)>) {
    if 0 <= i <= s.len() {
        lemma_ws_end(s, i);
        let j = ws_end(s, i);
        if j < s.len() && s[j] != 62 && s[j] != 47 {
            lemma_name_end(s, j);
            let ne = name_end(s, j);
            if ne != j {
                lemma_ws_end(s, ne);
                let k = ws_end(s, ne);
                if k < s.len() && s[k] == 61 {
                    lemma_ws_end(s, k + 1);
                    let q = ws_end(s, k + 1);
                    if q < s.len() && (s[q] == 34 || s[q] == 39) {
                        lemma_scan_to(s, q + 1, s[q]);
                    }
                }
            }
        }
    }
}

/// Position bounds of a successful attribute parse.
pub proof fn lemma_attrs_parse(s: Seq<u8>, i: int, acc: Seq<(Seq<u8>, Seq<u8>)>)
    requires
        0 <= i <= s.len(),
    ensures
        attrs_parse(s, i, acc) is Some ==> i < (attrs_parse(s, i, acc)->Some_0).1 <= s.len(),
    decreases s.len() - i,
{
    lemma_ws_end(s, i);
    let j = ws_end(s, i);
    if j < s.len() && s[j] != 62 && s[j] != 47 {
        lemma_name_end(s, j);
        let ne = name_end(s, j);
        if ne != j {
            lemma_ws_end(s, ne);
            let k = ws_end(s, ne);
            if k < s.len() && s[k] == 61 {
                lemma_ws_end(s, k + 1);
                let q = ws_end(s, k + 1);
                if q < s.len() && (s[q] == 34 || s[q] == 39) {
                    lemma_scan_to(s, q + 1, s[q]);
                    let ve = scan_to(s, q + 1, s[q]);
                    if ve < s.len() {
                        lemma_attrs_parse(
                            s,
                            ve + 1,
                            acc.push((s.subrange(j, ne), s.subrange(q + 1, ve))),
                        );
                    }
                }
            }
        }
    }
}

/// Executable twin of [`attrs_parse`], starting from an empty list.
pub fn attrs_parse_exec(s: &[u8], from: usize) -> (r: Option<(Vec<(Vec<u8>, Vec<u8>)>, usize, bool)>)
    requires
        from <= s.len(),
    ensures
        match r {
            Some(t) => {
                &&& attrs_parse(s@, from as int, Seq::empty()) == Some(
                    (t.0.deep_view(), t.1 as int, t.2),
                )
                &&& from < t.1 <= s.len()
            },
            None => attrs_parse(s@, from as int, Seq::empty()) is None,
        },
{
    let mut acc: Vec<(Vec<u8>, Vec<u8>)> = Vec::new();
    let mut i: usize = from;
    proof {
        assert(acc.deep_view() =~= Seq::<(Seq<u8>, Seq<u8>)>::empty());
    }
    loop
        invariant
            from <= i <= s.len(),
            attrs_parse(s@, from as int, Seq::empty()) == attrs_parse(
                s@,
                i as int,
                acc.deep_view(),
            ),
        decreases s.len() - i,
    {
        let ghost i0 = i as int;
        let ghost acc0 = acc.deep_view();
        let j = ws_end_exec(s, i);
        if j >= s.len() {
            return None;
        }
        if s[j] == 62 {
            return Some((acc, j + 1, false));
        }
        if s[j] == 47 {
            if j + 1 < s.len() && s[j + 1] == 62 {
                return Some((acc, j + 2, true));
            }
            return None;
        }
        let ne = name_end_exec(s, j);
        if ne == j {
            return None;
        }
        let k = ws_end_exec(s, ne);
        if k >= s.len() {
            return None;
        }
        if s[k] != 61 {
            return None;
        }
        let q = ws_end_exec(s, k + 1);
        if q >= s.len() {
            return None;
        }
        let qc = s[q];
        if qc != 34 && qc != 39 {
            return None;
        }
        let ve = scan_to_exec(s, q + 1, qc);
        if ve >= s.len() {
            return None;
        }
        let name_v = slice_to_vec(slice_subrange(s, j, ne));
        let val_v = slice_to_vec(slice_subrange(s, q + 1, ve));
        proof {
            assert(name_v.deep_view() =~= s@.subrange(j as int, ne as int));
            assert(val_v.deep_view() =~= s@.subrange(q as int + 1, ve as int));
        }
        acc.push((name_v, val_v));
        i = ve + 1;
        proof {
            assert(acc.deep_view() =~~= acc0.push(
                (s@.subrange(j as int, ne as int), s@.subrange(q as int + 1, ve as int)),
            ));
            assert(attrs_parse(s@, i0, acc0) == attrs_parse(s@, i as int, acc.deep_view()));
        }
    }
}

/// First value in an attribute list carrying the given name.
pub open spec fn attr_lookup(attrs: Seq<(Seq<u8>, Seq<u8>)>, name: Seq<u8>) -> Option<Seq<u8>>
    decreases attrs.len(),
{
    if attrs.len() == 0 {
        None
    } else if attrs.first().0 == name {
        Some(attrs.first().1)
    } else {
        attr_lookup(attrs.drop_first(), name)
    }
}

/// Executable twin of [`attr_lookup`].
pub fn attr_lookup_exec<'a>(attrs: &'a Vec<(Vec<u8>, Vec<u8>)>, name: &[u8]) -> (r: Option<
    &'a Vec<u8>,
>)
    ensures
        match r {
            Some(v) => attr_lookup(attrs.deep_view(), name@) == Some(v@),
            None => attr_lookup(attrs.deep_view(), name@) is None,
        },
{
    let mut i: usize = 0;
    let n = attrs.len();
    proof {
        assert(attrs.deep_view().skip(0) =~= attrs.deep_view());
    }
    while i < n
        invariant
            0 <= i <= n == attrs.len(),
            attr_lookup(attrs.deep_view(), name@) == attr_lookup(
                attrs.deep_view().skip(i as int),
                name@,
            ),
        decreases n - i,
    {
        proof {
            assert(attrs.deep_view().skip(i as int).first() == attrs@[i as int].deep_view());
            assert(attrs.deep_view().skip(i as int).drop_first() =~= attrs.deep_view().skip(
                i as int + 1,
            ));
            assert(attrs@[i as int].0.deep_view() =~= attrs@[i as int].0@);
            assert(attrs@[i as int].1.deep_view() =~= attrs@[i as int].1@);
        }
        if bytes_eq(attrs[i].0.as_slice(), name) {
            return Some(&attrs[i].1);
        }
        i = i + 1;
    }
    proof {
        assert(attrs.deep_view().skip(i as int).len() == 0);
    }
    None
}

/// Position just past the `?>` that ends a processing instruction or XML
/// declaration, scanning from inside it.
pub open spec fn pi_end(s: Seq<u8>, i: int) -> Option<int>
    decreases s.len() - i when 0 <= i <= s.len()
{
    if i + 1 < s.len() {
        if s[i] == 63 && s[i + 1] == 62 {
            Some(i + 2)
        } else {
            pi_end(s, i + 1)
        }
    } else {
        None
    }
}

pub proof fn lemma_pi_end(s: Seq<u8>, i: int)
    requires
        0 <= i <= s.len(),
    ensures
        pi_end(s, i) is Some ==> i < (pi_end(s, i)->Some_0) <= s.len(),
    decreases s.len() - i,
{
    if i + 1 < s.len() && !(s[i] == 63 && s[i + 1] == 62) {
        lemma_pi_end(s, i + 1);
    }
}

/// Executable twin of [`pi_end`].
pub fn pi_end_exec(s: &[u8], from: usize) -> (r: Option<usize>)
    requires
        from <= s.len(),
    ensures
        match r {
            Some(j) => pi_end(s@, from as int) == Some(j as int) && from < j <= s.len(),
            None => pi_end(s@, from as int) is None,
        },
{
    let mut i: usize = from;
    loop
        invariant
            from <= i <= s.len(),
            pi_end(s@, from as int) == pi_end(s@, i as int),
        decreases s.len() - i,
    {
        if s.len() - i < 2 {
            return None;
        }
        if s[i] == 63 && s[i + 1] == 62 {
            proof {
                lemma_pi_end(s@, from as int);
            }
            return Some(i + 2);
        }
        i = i + 1;
    }
}

/// Skips the content and closing tag of an already-opened element, plus
/// `depth` more levels of enclosing unknown elements: text and balanced
/// nested tags fly by (closing-tag names inside are not checked), and the
/// position just past the matching closing tag comes back. `None` means the
/// text ends, or a tag inside cannot be read, before the element closes.
pub open spec fn skip_node(s: Seq<u8>, i: int, depth: int) -> Option<int>
    decreases s.len() - i when 0 <= i <= s.len() && depth >= 0
    via skip_node_dec
{
    let j = scan_to(s, i, 60);
    if j >= s.len() {
        None
    } else if j + 1 < s.len() && s[j + 1] == 47 {
        let ne = name_end(s, j + 2);
        if ne == j + 2 {
            None
        } else {
            let k = ws_end(s, ne);
            if k < s.len() && s[k] == 62 {
                if depth == 0 {
                    Some(k + 1)
                } else {
                    skip_node(s, k + 1, depth - 1)
                }
            } else {
                None
            }
        }
    } else {
        let ne = name_end(s, j + 1);
        if ne == j + 1 {
            None
        } else {
            match attrs_parse(s, ne, Seq::empty()) {
                None => None,
                Some((a, k, sc)) => {
                    if sc {
                        skip_node(s, k, depth)
                    } else {
                        skip_node(s, k, depth + 1)
                    }
                },
            }
        }
    }
}

#[via_fn]
proof fn skip_node_dec(s: Seq<u8>, i: int, depth: int) {
    if 0 <= i <= s.len() {
        lemma_scan_to(s, i, 60);
        let j = scan_to(s, i, 60);
        if j < s.len() {
            if j + 1 < s.len() && s[j + 1] == 47 {
                lemma_name_end(s, j + 2);
                let ne = name_end(s, j + 2);
                if ne != j + 2 {
                    lemma_ws_end(s, ne);
                }
            } else {
                lemma_name_end(s, j + 1);
                let ne = name_end(s, j + 1);
                if ne != j + 1 {
                    lemma_attrs_parse(s, ne, Seq::empty());
                }
            }
        }
    }
}

/// Position bounds of a successful skip.
pub proof fn lemma_skip_node(s: Seq<u8>, i: int, depth: int)
    requires
        0 <= i <= s.len(),
        depth >= 0,
    ensures
        skip_node(s, i, depth) is Some ==> i < (skip_node(s, i, depth)->Some_0) <= s.len(),
    decreases s.len() - i,
{
    lemma_scan_to(s, i, 60);
    let j = scan_to(s, i, 60);
    if j < s.len() {
        if j + 1 < s.len() && s[j + 1] == 47 {
            lemma_name_end(s, j + 2);
            let ne = name_end(s, j + 2);
            if ne != j + 2 {
                lemma_ws_end(s, ne);
                let k = ws_end(s, ne);
                if k < s.len() && s[k] == 62 && depth != 0 {
                    lemma_skip_node(s, k + 1, depth - 1);
                }
            }
        } else {
            lemma_name_end(s, j + 1);
            let ne = name_end(s, j + 1);
            if ne != j + 1 {
                lemma_attrs_parse(s, ne, Seq::empty());
                match attrs_parse(s, ne, Seq::empty()) {
                    None => {},
                    Some((a, k, sc)) => {
                        if sc {
                            lemma_skip_node(s, k, depth);
                        } else {
                            lemma_skip_node(s, k, depth + 1);
                        }
                    },
                }
            }
        }
    }
}

/// Executable twin of [`skip_node`] at depth zero: skips one element's
/// content and closing tag.
pub fn skip_node_exec(s: &[u8], from: usize) -> (r: Option<usize>)
    requires
        from <= s.len(),
    ensures
        match r {
            Some(j) => skip_node(s@, from as int, 0) == Some(j as int) && from < j <= s.len(),
            None => skip_node(s@, from as int, 0) is None,
        },
{
    let mut i: usize = from;
    let mut depth: usize = 0;
    loop
        invariant
            from <= i <= s.len(),
            depth <= i,
            skip_node(s@, from as int, 0) == skip_node(s@, i as int, depth as int),
        decreases s.len() - i,
    {
        let ghost i0 = i as int;
        let ghost d0 = depth as int;
        let j = scan_to_exec(s, i, 60);
        if j >= s.len() {
            return None;
        }
        if j + 1 < s.len() && s[j + 1] == 47 {
            let ne = name_end_exec(s, j + 2);
            if ne == j + 2 {
                return None;
            }
            let k = ws_end_exec(s, ne);
            if k >= s.len() {
                return None;
            }
            if s[k] != 62 {
                return None;
            }
            if depth == 0 {
                proof {
                    lemma_skip_node(s@, from as int, 0);
                }
                return Some(k + 1);
            }
            depth = depth - 1;
            i = k + 1;
        } else {
            let ne = name_end_exec(s, j + 1);
            if ne == j + 1 {
                return None;
            }
            match attrs_parse_exec(s, ne) {
                None => {
                    return None;
                },
                Some((a, k, sc)) => {
                    if !sc {
                        depth = depth + 1;
                    }
                    i = k;
                },
            }
        }
        proof {
            assert(skip_node(s@, i0, d0) == skip_node(s@, i as int, depth as int));
        }
    }
}

} // verus!
