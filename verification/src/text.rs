//! Verified utilities on strings: single-character pushes, decimal
//! rendering, equality, and splitting or joining on a separator character.

use vstd::prelude::*;

verus! {

/// Relies on String::push: appends the given character to the end of
/// the string.
#[verifier::external_body]
pub(crate) fn string_push(s: &mut String, c: char)
    ensures
        final(s)@ == old(s)@ + seq![c],
{
    s.push(c);
}

/// A string made of the given characters, in order.
pub fn chars_to_string(v: &Vec<char>) -> (r: String)
    ensures
        r@ == v@,
{
    let mut s = String::new();
    let mut k: usize = 0;
    while k < v.len()
        invariant
            0 <= k <= v@.len(),
            s@ == v@.subrange(0, k as int),
        decreases v@.len() - k,
    {
        string_push(&mut s, v[k]);
        proof {
            assert(v@.subrange(0, k as int).push(v@[k as int]) =~= v@.subrange(0, k + 1));
        }
        k = k + 1;
    }
    proof {
        assert(v@.subrange(0, v@.len() as int) =~= v@);
    }
    s
}

/// The character for one decimal digit.
pub open spec fn digit_char(d: nat) -> char {
    if d == 0 {
        '0'
    } else if d == 1 {
        '1'
    } else if d == 2 {
        '2'
    } else if d == 3 {
        '3'
    } else if d == 4 {
        '4'
    } else if d == 5 {
        '5'
    } else if d == 6 {
        '6'
    } else if d == 7 {
        '7'
    } else if d == 8 {
        '8'
    } else {
        '9'
    }
}

/// The decimal rendering of a number, without sign or leading zeros.
pub open spec fn dec_of(n: nat) -> Seq<char>
    decreases n,
{
    if n < 10 {
        seq![digit_char(n)]
    } else {
        dec_of(n / 10).push(digit_char(n % 10))
    }
}

fn digit_to_char(d: u8) -> (c: char)
    requires
        d < 10,
    ensures
        c == digit_char(d as nat),
{
    match d {
        0 => '0',
        1 => '1',
        2 => '2',
        3 => '3',
        4 => '4',
        5 => '5',
        6 => '6',
        7 => '7',
        8 => '8',
        _ => '9',
    }
}

/// Appends the decimal rendering of `n` to `s`.
pub fn push_dec(s: &mut String, n: u64)
    ensures
        final(s)@ == old(s)@ + dec_of(n as nat),
    decreases n,
{
    if n >= 10 {
        push_dec(s, n / 10);
    }
    let d: u8 = (n % 10) as u8;
    string_push(s, digit_to_char(d));
    proof {
        assert(final(s)@ =~= old(s)@ + dec_of(n as nat));
    }
}

/// The decimal rendering of `n` as a fresh string.
pub fn to_dec_string(n: u64) -> (r: String)
    ensures
        r@ == dec_of(n as nat),
{
    let mut s = String::new();
    push_dec(&mut s, n);
    proof {
        assert(s@ =~= dec_of(n as nat));
    }
    s
}

/// Character-for-character equality of two string slices.
pub fn str_eq(a: &str, b: &str) -> (r: bool)
    ensures
        r == (a@ == b@),
{
    let n = a.unicode_len();
    let m = b.unicode_len();
    if n != m {
        return false;
    }
    let mut i: usize = 0;
    while i < n
        invariant
            0 <= i <= n,
            n == a@.len(),
            n == b@.len(),
            forall|j: int| 0 <= j < i ==> a@[j] == b@[j],
        decreases n - i,
    {
        if a.get_char(i) != b.get_char(i) {
            return false;
        }
        i = i + 1;
    }
    proof {
        assert(a@ =~= b@);
    }
    true
}

/// The views of a sequence of strings.
pub open spec fn str_views(v: Seq<String>) -> Seq<Seq<char>> {
    v.map_values(|s: String| s@)
}

/// The pieces of `s` between occurrences of `sep`: one piece more than
/// there are separators, each possibly empty.
pub open spec fn split_on_spec(s: Seq<char>, sep: char) -> Seq<Seq<char>>
    decreases s.len(),
{
    if s.len() == 0 {
        seq![Seq::<char>::empty()]
    } else if s[0] == sep {
        seq![Seq::<char>::empty()] + split_on_spec(s.drop_first(), sep)
    } else {
        let rest = split_on_spec(s.drop_first(), sep);
        seq![seq![s[0]] + rest[0]] + rest.drop_first()
    }
}

/// The pieces joined back with `sep` between them.
pub open spec fn join_with_spec(pieces: Seq<Seq<char>>, sep: char) -> Seq<char>
    decreases pieces.len(),
{
    if pieces.len() == 0 {
        Seq::empty()
    } else if pieces.len() == 1 {
        pieces[0]
    } else {
        pieces[0] + seq![sep] + join_with_spec(pieces.drop_first(), sep)
    }
}

pub proof fn lemma_split_on_len(s: Seq<char>, sep: char)
    ensures
        split_on_spec(s, sep).len() >= 1,
    decreases s.len(),
{
    if s.len() > 0 {
        lemma_split_on_len(s.drop_first(), sep);
    }
}

proof fn lemma_split_no_sep(t: Seq<char>, sep: char)
    requires
        forall|j: int| 0 <= j < t.len() ==> t[j] != sep,
    ensures
        split_on_spec(t, sep) == seq![t],
    decreases t.len(),
{
    if t.len() == 0 {
        assert(split_on_spec(t, sep) =~~= seq![t]);
    } else {
        lemma_split_no_sep(t.drop_first(), sep);
        lemma_split_on_len(t.drop_first(), sep);
        let rest = split_on_spec(t.drop_first(), sep);
        assert(rest[0] == t.drop_first());
        assert(rest.drop_first() =~= Seq::<Seq<char>>::empty());
        assert(seq![t[0]] + rest[0] =~= t);
        assert(split_on_spec(t, sep) == seq![seq![t[0]] + rest[0]] + rest.drop_first());
        assert(seq![seq![t[0]] + rest[0]] + rest.drop_first() =~= seq![t]);
    }
}

proof fn lemma_split_first_sep(t: Seq<char>, sep: char, k: int)
    requires
        0 <= k < t.len(),
        t[k] == sep,
        forall|j: int| 0 <= j < k ==> t[j] != sep,
    ensures
        split_on_spec(t, sep) == seq![t.subrange(0, k)] + split_on_spec(
            t.subrange(k + 1, t.len() as int),
            sep,
        ),
    decreases k,
{
    if k == 0 {
        assert(t.drop_first() =~= t.subrange(1, t.len() as int));
        assert(t.subrange(0, 0) =~= Seq::<char>::empty());
        assert(split_on_spec(t, sep) =~= seq![t.subrange(0, 0)] + split_on_spec(
            t.subrange(1, t.len() as int),
            sep,
        ));
    } else {
        let u = t.drop_first();
        lemma_split_first_sep(u, sep, k - 1);
        lemma_split_on_len(u.subrange(k, u.len() as int), sep);
        let rest = split_on_spec(u, sep);
        assert(u.subrange(k, u.len() as int) =~= t.subrange(k + 1, t.len() as int));
        assert(rest[0] == u.subrange(0, k - 1));
        assert(seq![t[0]] + u.subrange(0, k - 1) =~= t.subrange(0, k));
        assert(split_on_spec(t, sep) =~= seq![t.subrange(0, k)] + split_on_spec(
            t.subrange(k + 1, t.len() as int),
            sep,
        ));
    }
}

/// Splits `s` at every occurrence of `sep`.
pub fn split_on(s: &str, sep: char) -> (r: Vec<String>)
    ensures
        str_views(r@) == split_on_spec(s@, sep),
        r@.len() >= 1,
{
    let n = s.unicode_len();
    let mut r: Vec<String> = Vec::new();
    let mut start: usize = 0;
    let mut i: usize = 0;
    proof {
        assert(s@.subrange(0, n as int) =~= s@);
        assert(str_views(r@) + split_on_spec(s@, sep) =~= split_on_spec(s@, sep));
    }
    while i < n
        invariant
            0 <= start <= i <= n,
            n == s@.len(),
            forall|j: int| start <= j < i ==> s@[j] != sep,
            str_views(r@) + split_on_spec(s@.subrange(start as int, n as int), sep)
                == split_on_spec(s@, sep),
        decreases n - i,
    {
        if s.get_char(i) == sep {
            let piece = String::from_str(s.substring_char(start, i));
            let ghost old_r = r@;
            r.push(piece);
            proof {
                let t = s@.subrange(start as int, n as int);
                lemma_split_first_sep(t, sep, i - start);
                assert(t.subrange(0, i - start) =~= s@.subrange(start as int, i as int));
                assert(t.subrange(i - start + 1, t.len() as int) =~= s@.subrange(
                    i + 1,
                    n as int,
                ));
                assert(str_views(r@) =~= str_views(old_r).push(piece@));
                assert(str_views(r@) + split_on_spec(s@.subrange(i + 1, n as int), sep)
                    =~= split_on_spec(s@, sep));
            }
            start = i + 1;
        }
        i = i + 1;
    }
    let piece = String::from_str(s.substring_char(start, n));
    let ghost old_r = r@;
    r.push(piece);
    proof {
        let t = s@.subrange(start as int, n as int);
        lemma_split_no_sep(t, sep);
        assert(str_views(r@) =~= str_views(old_r).push(piece@));
        assert(str_views(r@) =~= split_on_spec(s@, sep));
    }
    r
}

proof fn lemma_join_push(pv: Seq<Seq<char>>, sep: char, x: Seq<char>)
    requires
        pv.len() >= 1,
    ensures
        join_with_spec(pv.push(x), sep) == join_with_spec(pv, sep) + seq![sep] + x,
    decreases pv.len(),
{
    if pv.len() == 1 {
        assert(pv.push(x).drop_first() =~= seq![x]);
        assert(join_with_spec(pv.push(x).drop_first(), sep) == x);
        assert(pv.push(x)[0] == pv[0]);
        assert(join_with_spec(pv.push(x), sep) == pv.push(x)[0] + seq![sep] + join_with_spec(
            pv.push(x).drop_first(),
            sep,
        ));
    } else {
        lemma_join_push(pv.drop_first(), sep, x);
        assert(pv.push(x).drop_first() =~= pv.drop_first().push(x));
        assert(join_with_spec(pv.push(x), sep) == pv.push(x)[0] + seq![sep] + join_with_spec(
            pv.push(x).drop_first(),
            sep,
        ));
        assert(pv.push(x)[0] == pv[0]);
        assert(join_with_spec(pv, sep) == pv[0] + seq![sep] + join_with_spec(
            pv.drop_first(),
            sep,
        ));
        assert(join_with_spec(pv.push(x), sep) =~= join_with_spec(pv, sep) + seq![sep] + x);
    }
}

/// Joins the strings with `sep` between consecutive elements.
pub fn join_with(pieces: &Vec<String>, sep: char) -> (r: String)
    ensures
        r@ == join_with_spec(str_views(pieces@), sep),
{
    let ghost pv = str_views(pieces@);
    let mut r = String::new();
    if pieces.len() == 0 {
        proof {
            assert(r@ =~= join_with_spec(pv, sep));
        }
        return r;
    }
    let mut i: usize = 0;
    while i < pieces.len()
        invariant
            0 <= i <= pieces@.len(),
            pv == str_views(pieces@),
            i > 0 ==> r@ == join_with_spec(pv.subrange(0, i as int), sep),
            i == 0 ==> r@ == Seq::<char>::empty(),
        decreases pieces@.len() - i,
    {
        if i > 0 {
            string_push(&mut r, sep);
        }
        r.append(pieces[i].as_str());
        proof {
            if i == 0 {
                assert(pv.subrange(0, 1) =~= seq![pv[0]]);
                assert(r@ =~= join_with_spec(pv.subrange(0, 1), sep));
            } else {
                lemma_join_push(pv.subrange(0, i as int), sep, pv[i as int]);
                assert(pv.subrange(0, i as int).push(pv[i as int]) =~= pv.subrange(
                    0,
                    i + 1,
                ));
                assert(r@ =~= join_with_spec(pv.subrange(0, i + 1), sep));
            }
        }
        i = i + 1;
    }
    proof {
        assert(pv.subrange(0, pv.len() as int) =~= pv);
    }
    r
}

/// The length of the directory part of a path, including the final
/// slash; zero when the path has no slash.
pub open spec fn dir_len(p: Seq<char>) -> int
    decreases p.len(),
{
    if p.len() == 0 {
        0
    } else if p.last() == '/' {
        p.len() as int
    } else {
        dir_len(p.drop_last())
    }
}

/// The index of the last dot of a file name, ignoring a leading dot;
/// -1 when there is none.
pub open spec fn last_dot(f: Seq<char>) -> int
    decreases f.len(),
{
    if f.len() <= 1 {
        -1
    } else if f.last() == '.' {
        f.len() - 1
    } else {
        last_dot(f.drop_last())
    }
}

/// The path with its extension replaced by `ext`, or `ext` appended
/// when the file name has none; paths without a usable file name are
/// returned unchanged.
pub open spec fn set_ext_spec(p: Seq<char>, ext: Seq<char>) -> Seq<char> {
    let d = dir_len(p);
    let f = p.skip(d);
    if f.len() == 0 || f == "."@ || f == ".."@ {
        p
    } else {
        let ld = last_dot(f);
        if ld == -1 {
            p + seq!['.'] + ext
        } else {
            p.subrange(0, d + ld) + seq!['.'] + ext
        }
    }
}

/// The directory length of the prefix of `p` of length `m`.
fn dir_len_upto(p: &str, m: usize) -> (r: usize)
    requires
        m <= p@.len(),
    ensures
        r == dir_len(p@.subrange(0, m as int)),
        r <= m,
    decreases m,
{
    if m == 0 {
        proof {
            assert(p@.subrange(0, 0) =~= Seq::<char>::empty());
        }
        0
    } else if p.get_char(m - 1) == '/' {
        proof {
            assert(p@.subrange(0, m as int).last() == p@[m - 1]);
        }
        m
    } else {
        let r = dir_len_upto(p, m - 1);
        proof {
            assert(p@.subrange(0, m as int).last() == p@[m - 1]);
            assert(p@.subrange(0, m as int).drop_last() =~= p@.subrange(0, m - 1));
        }
        r
    }
}

/// The directory length of the whole path.
pub fn dir_len_of(p: &str) -> (r: usize)
    ensures
        r == dir_len(p@),
        r <= p@.len(),
{
    let n = p.unicode_len();
    let r = dir_len_upto(p, n);
    proof {
        assert(p@.subrange(0, n as int) =~= p@);
    }
    r
}

/// The last dot of the file-name part `p[start..start+m]`, as an
/// absolute index into `p`.
fn last_dot_upto(p: &str, start: usize, m: usize) -> (r: Option<usize>)
    requires
        start + m <= p@.len(),
        start + m <= usize::MAX,
    ensures
        ({
            let f = p@.subrange(start as int, start + m);
            match r {
                Some(i) => start <= i < start + m && i - start == last_dot(f),
                None => last_dot(f) == -1,
            }
        }),
    decreases m,
{
    if m <= 1 {
        None
    } else if p.get_char(start + m - 1) == '.' {
        proof {
            assert(p@.subrange(start as int, start + m).last() == p@[start + m - 1]);
        }
        Some(start + m - 1)
    } else {
        let r = last_dot_upto(p, start, m - 1);
        proof {
            assert(p@.subrange(start as int, start + m).last() == p@[start + m - 1]);
            assert(p@.subrange(start as int, start + m).drop_last() =~= p@.subrange(
                start as int,
                start + (m - 1),
            ));
        }
        r
    }
}

/// The last dot of a file name, ignoring a leading dot.
pub fn last_dot_of(f: &str) -> (r: Option<usize>)
    ensures
        match r {
            Some(i) => i < f@.len() && i == last_dot(f@),
            None => last_dot(f@) == -1,
        },
{
    let n = f.unicode_len();
    let r = last_dot_upto(f, 0, n);
    proof {
        assert(f@.subrange(0, n as int) =~= f@);
    }
    r
}

/// The path with its extension replaced by `ext`.
pub fn set_extension(p: &str, ext: &str) -> (r: String)
    ensures
        r@ == set_ext_spec(p@, ext@),
{
    let n = p.unicode_len();
    let d = dir_len_of(p);
    let f = p.substring_char(d, n);
    proof {
        assert(p@.subrange(d as int, n as int) =~= p@.skip(d as int));
    }
    if f.unicode_len() == 0 || str_eq(f, ".") || str_eq(f, "..") {
        return String::from_str(p);
    }
    let ld = last_dot_upto(p, d, n - d);
    proof {
        assert(p@.subrange(d as int, d + (n - d)) =~= p@.skip(d as int));
    }
    match ld {
        None => {
            let mut out = String::from_str(p);
            string_push(&mut out, '.');
            out.append(ext);
            proof {
                assert(out@ =~= set_ext_spec(p@, ext@));
            }
            out
        },
        Some(i) => {
            let mut out = String::from_str(p.substring_char(0, i));
            string_push(&mut out, '.');
            out.append(ext);
            proof {
                assert(out@ =~= set_ext_spec(p@, ext@));
            }
            out
        },
    }
}

} // verus!
