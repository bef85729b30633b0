//! Splitting, joining, trimming, and case mapping over character sequences,
//! with the round-trip law relating split and join.
//!
//! Whitespace, case, and trimming are ASCII notions throughout: the space
//! class is space, tab, newline, and carriage return, and the case maps
//! move only the ASCII letters.  Other characters pass through unchanged.

use vstd::prelude::*;
use crate::chars::{is_space, is_space_char, lower_char, upper_char, to_lower_char, to_upper_char};

verus! {

/// The pieces joined with the delimiter between them.
pub open spec fn join_with(parts: Seq<Seq<char>>, d: Seq<char>) -> Seq<char>
    decreases parts.len(),
{
    if parts.len() == 0 {
        Seq::<char>::empty()
    } else if parts.len() == 1 {
        parts[0]
    } else {
        parts[0] + d + join_with(parts.drop_first(), d)
    }
}

/// The position of the first occurrence of `d` as a substring of `s`, or `-1`.
pub open spec fn find_sub(s: Seq<char>, d: Seq<char>) -> int
    decreases s.len(),
{
    if d.len() == 0 {
        0
    } else if s.len() < d.len() {
        -1
    } else if s.take(d.len() as int) == d {
        0
    } else {
        let r = find_sub(s.drop_first(), d);
        if r < 0 {
            -1
        } else {
            r + 1
        }
    }
}

pub proof fn lemma_find_sub(s: Seq<char>, d: Seq<char>)
    ensures
        find_sub(s, d) >= 0 ==> find_sub(s, d) + d.len() <= s.len() && s.subrange(
            find_sub(s, d),
            find_sub(s, d) + d.len(),
        ) == d,
        find_sub(s, d) < 0 ==> forall|j: int|
            0 <= j && j + d.len() <= s.len() ==> #[trigger] s.subrange(j, j + d.len()) != d,
    decreases s.len(),
{
    let r = find_sub(s, d);
    if d.len() == 0 {
        assert(s.subrange(0, 0) =~= d);
    } else if s.len() >= d.len() && s.take(d.len() as int) != d {
        lemma_find_sub(s.drop_first(), d);
        let r2 = find_sub(s.drop_first(), d);
        if r2 >= 0 {
            assert(s.drop_first().subrange(r2, r2 + d.len()) =~= s.subrange(
                r2 + 1,
                r2 + 1 + d.len(),
            ));
        } else {
            assert forall|j: int| 0 <= j && j + d.len() <= s.len() implies #[trigger] s.subrange(
                j,
                j + d.len(),
            ) != d by {
                if j == 0 {
                    assert(s.subrange(0, d.len() as int) =~= s.take(d.len() as int));
                } else {
                    assert(s.drop_first().subrange(j - 1, j - 1 + d.len()) =~= s.subrange(
                        j,
                        j + d.len(),
                    ));
                }
            }
        }
    } else if s.len() >= d.len() {
        assert(s.subrange(0, d.len() as int) =~= s.take(d.len() as int));
    }
}

/// `s` split on every occurrence of the delimiter `d`; empty pieces kept.
pub open spec fn split_str(s: Seq<char>, d: Seq<char>) -> Seq<Seq<char>>
    decreases s.len(),
{
    if d.len() == 0 {
        seq![s]
    } else {
        let r = find_sub(s, d);
        if r < 0 {
            seq![s]
        } else {
            proof {
                lemma_find_sub(s, d);
            }
            seq![s.take(r)] + split_str(s.skip(r + d.len()), d)
        }
    }
}

pub proof fn lemma_split_str_nonempty(s: Seq<char>, d: Seq<char>)
    ensures
        split_str(s, d).len() >= 1,
    decreases s.len(),
{
    if d.len() > 0 && find_sub(s, d) >= 0 {
        lemma_find_sub(s, d);
    }
}

/// Joining what splitting produced, with the same delimiter, gives back the
/// original text.
pub proof fn lemma_join_split_str(s: Seq<char>, d: Seq<char>)
    requires
        d.len() >= 1,
    ensures
        join_with(split_str(s, d), d) == s,
    decreases s.len(),
{
    let r = find_sub(s, d);
    lemma_find_sub(s, d);
    if r < 0 {
        assert(join_with(seq![s], d) == s);
    } else {
        let rest = s.skip(r + d.len());
        lemma_join_split_str(rest, d);
        lemma_split_str_nonempty(rest, d);
        let parts = seq![s.take(r)] + split_str(rest, d);
        assert(split_str(s, d) == parts);
        assert(parts.len() >= 2);
        assert(parts[0] == s.take(r));
        assert(parts.drop_first() =~= split_str(rest, d));
        assert(join_with(parts, d) == s.take(r) + d + join_with(split_str(rest, d), d));
        assert(s.take(r) + s.subrange(r, r + d.len()) + rest =~= s);
    }
}

/// A text that holds no occurrence of the delimiter splits to itself alone.
pub proof fn lemma_split_str_no_delim(s: Seq<char>, d: Seq<char>)
    requires
        d.len() >= 1,
        forall|j: int| 0 <= j && j + d.len() <= s.len() ==> #[trigger] s.subrange(j, j + d.len())
            != d,
    ensures
        split_str(s, d) == seq![s],
{
    lemma_find_sub(s, d);
    if find_sub(s, d) >= 0 {
        assert(s.subrange(find_sub(s, d), find_sub(s, d) + d.len()) == d);
    }
}

/// The length of the leading run of non-whitespace characters.
pub open spec fn nonspace_prefix(s: Seq<char>) -> int
    decreases s.len(),
{
    if s.len() == 0 || is_space(s.first()) {
        0
    } else {
        1 + nonspace_prefix(s.drop_first())
    }
}

pub proof fn lemma_nonspace_prefix(s: Seq<char>)
    ensures
        0 <= nonspace_prefix(s) <= s.len(),
        forall|j: int| 0 <= j < nonspace_prefix(s) ==> !is_space(s[j]),
        nonspace_prefix(s) < s.len() ==> is_space(s[nonspace_prefix(s)]),
    decreases s.len(),
{
    if s.len() > 0 && !is_space(s.first()) {
        lemma_nonspace_prefix(s.drop_first());
        let p = nonspace_prefix(s);
        assert forall|j: int| 0 <= j < p implies !is_space(s[j]) by {
            if j > 0 {
                assert(s.drop_first()[j - 1] == s[j]);
            }
        }
        if p < s.len() {
            assert(s.drop_first()[p - 1] == s[p]);
        }
    }
}

/// The maximal runs of non-whitespace characters, in order.
pub open spec fn space_tokens(s: Seq<char>) -> Seq<Seq<char>>
    decreases s.len(),
{
    if s.len() == 0 {
        Seq::<Seq<char>>::empty()
    } else if is_space(s.first()) {
        space_tokens(s.drop_first())
    } else {
        let p = nonspace_prefix(s);
        proof {
            lemma_nonspace_prefix(s);
        }
        seq![s.take(p)] + space_tokens(s.skip(p))
    }
}

/// Splits on whitespace, dropping empty pieces.
pub fn split_whitespace_chars(s: &Vec<char>) -> (r: Vec<Vec<char>>)
    ensures
        r.deep_view() == space_tokens(s@),
{
    let n = s.len();
    let mut out: Vec<Vec<char>> = Vec::new();
    let mut i: usize = 0;
    proof {
        assert(s@.skip(0) =~= s@);
        assert(out.deep_view() + space_tokens(s@.skip(0)) =~~= space_tokens(s@));
    }
    while i < n
        invariant
            i <= n,
            n == s@.len(),
            out.deep_view() + space_tokens(s@.skip(i as int)) =~~= space_tokens(s@),
        decreases n - i,
    {
        if is_space_char(s[i]) {
            proof {
                assert(s@.skip(i as int).drop_first() =~= s@.skip(i as int + 1));
            }
            i = i + 1;
        } else {
            let ghost tail = s@.skip(i as int);
            let ghost p = nonspace_prefix(tail);
            proof {
                lemma_nonspace_prefix(tail);
            }
            let mut j = i;
            let mut tok: Vec<char> = Vec::new();
            while j < n && !is_space_char(s[j])
                invariant
                    i <= j <= n,
                    n == s@.len(),
                    tail == s@.skip(i as int),
                    tok@ =~= tail.take(j - i as int),
                    forall|q: int| 0 <= q < j - i as int ==> !is_space(tail[q]),
                    j - i as int <= nonspace_prefix(tail),
                decreases n - j,
            {
                tok.push(s[j]);
                proof {
                    assert(tail[j - i as int] == s@[j as int]);
                    assert(tail.take(j - i as int).push(tail[j - i as int]) =~= tail.take(
                        j + 1 - i as int,
                    ));
                    lemma_nonspace_prefix(tail);
                    assert(j + 1 - i as int <= nonspace_prefix(tail)) by {
                        if nonspace_prefix(tail) < j + 1 - i as int {
                            assert(is_space(tail[nonspace_prefix(tail)]));
                        }
                    }
                }
                j = j + 1;
            }
            proof {
                assert(j - i as int == p) by {
                    if (j as int - i as int) < p {
                        assert(!is_space(tail[j - i as int]));
                    }
                }
                assert(tok@ =~= tail.take(p));
                assert(space_tokens(tail) == seq![tail.take(p)] + space_tokens(tail.skip(p)));
                assert(s@.skip(j as int) =~= tail.skip(p));
            }
            let ghost pre = out.deep_view();
            out.push(tok);
            proof {
                assert(out.deep_view() =~~= pre.push(tok@));
                assert(pre.push(tok@) =~~= pre + seq![tail.take(p)]);
                assert(out.deep_view() + space_tokens(s@.skip(j as int)) =~~= space_tokens(s@));
            }
            i = j;
        }
    }
    proof {
        assert(s@.skip(n as int).len() == 0);
        assert(out.deep_view() + space_tokens(s@.skip(n as int)) =~~= out.deep_view());
    }
    out
}

/// Splits on a delimiter, keeping empty pieces.
pub fn split_delim_chars(s: &Vec<char>, d: &Vec<char>) -> (r: Vec<Vec<char>>)
    requires
        d@.len() >= 1,
    ensures
        r.deep_view() == split_str(s@, d@),
{
    let n = s.len();
    let dl = d.len();
    let mut out: Vec<Vec<char>> = Vec::new();
    let mut piece: Vec<char> = Vec::new();
    let ghost mut start: int = 0;
    let mut i: usize = 0;
    proof {
        assert(s@.skip(0) =~= s@);
        assert(out.deep_view() + split_str(s@.skip(0), d@) =~~= split_str(s@, d@));
    }
    while i < n
        invariant
            0 <= start <= i as int,
            i <= n,
            n == s@.len(),
            dl == d@.len(),
            dl >= 1,
            piece@ =~= s@.subrange(start, i as int),
            out.deep_view() + split_str(s@.skip(start), d@) =~~= split_str(s@, d@),
            forall|p: int|
                start <= p < i as int && p + dl as int <= n as int ==> #[trigger] s@.subrange(
                    p,
                    p + dl as int,
                ) != d@,
        decreases n - i,
    {
        if n - i >= dl && matches_at(s, i, d) {
            let ghost tail = s@.skip(start);
            proof {
                assert(tail.subrange(i - start, i - start + dl as int) =~= s@.subrange(
                    i as int,
                    i + dl as int,
                ));
                assert forall|j: int|
                    0 <= j < i - start && j + dl as int <= tail.len() implies #[trigger] tail.subrange(
                    j,
                    j + dl as int,
                ) != d@ by {
                    assert(tail.subrange(j, j + dl as int) =~= s@.subrange(
                        start + j,
                        start + j + dl as int,
                    ));
                }
                lemma_find_sub_at(tail, d@, i - start);
                assert(split_str(tail, d@) == seq![tail.take(i - start)] + split_str(
                    tail.skip(i - start + dl as int),
                    d@,
                ));
                assert(tail.take(i - start) =~= s@.subrange(start, i as int));
                assert(tail.skip(i - start + dl as int) =~= s@.skip(i + dl as int));
            }
            let ghost pre = out.deep_view();
            out.push(piece);
            piece = Vec::new();
            proof {
                assert(out.deep_view() =~~= pre.push(s@.subrange(start, i as int)));
                assert(pre.push(s@.subrange(start, i as int)) =~~= pre + seq![
                    s@.subrange(start, i as int),
                ]);
                assert(out.deep_view() + split_str(s@.skip(i + dl as int), d@) =~~= split_str(
                    s@,
                    d@,
                ));
            }
            i = i + dl;
            proof {
                start = i as int;
                assert(piece@ =~= s@.subrange(start, i as int));
            }
        } else {
            piece.push(s[i]);
            proof {
                assert(s@.subrange(start, i as int).push(s@[i as int]) =~= s@.subrange(
                    start,
                    i + 1 as int,
                ));
            }
            i = i + 1;
        }
    }
    proof {
        let tail = s@.skip(start);
        assert forall|j: int|
            0 <= j && j + d@.len() <= tail.len() implies #[trigger] tail.subrange(j, j + d@.len())
            != d@ by {
            assert(tail.subrange(j, j + dl as int) =~= s@.subrange(
                start + j,
                start + j + dl as int,
            ));
        }
        lemma_split_str_no_delim(tail, d@);
        assert(piece@ =~= tail);
    }
    let ghost pre = out.deep_view();
    out.push(piece);
    proof {
        assert(out.deep_view() =~~= pre.push(piece@));
        assert(pre.push(piece@) =~~= pre + seq![s@.skip(start)]);
        assert(out.deep_view() =~~= split_str(s@, d@));
    }
    out
}

/// Whether `d` occurs in `s` at position `i`.
fn matches_at(s: &Vec<char>, i: usize, d: &Vec<char>) -> (r: bool)
    requires
        i + d@.len() <= s@.len(),
    ensures
        r == (s@.subrange(i as int, i as int + d@.len()) == d@),
{
    let n = s.len();
    let dl = d.len();
    let mut k: usize = 0;
    while k < dl
        invariant
            k <= dl,
            dl == d@.len(),
            n == s@.len(),
            i + dl <= s@.len(),
            forall|q: int| 0 <= q < k as int ==> s@[i + q] == d@[q],
        decreases dl - k,
    {
        if s[i + k] != d[k] {
            proof {
                assert(s@.subrange(i as int, i as int + d@.len())[k as int] == s@[i + k as int]);
            }
            return false;
        }
        k = k + 1;
    }
    proof {
        assert(s@.subrange(i as int, i as int + d@.len()) =~= d@);
    }
    true
}

/// If `d` occurs at `r` and nowhere earlier, `find_sub` returns `r`.
proof fn lemma_find_sub_at(s: Seq<char>, d: Seq<char>, r: int)
    requires
        d.len() >= 1,
        0 <= r,
        r + d.len() <= s.len(),
        s.subrange(r, r + d.len()) == d,
        forall|j: int| 0 <= j < r && j + d.len() <= s.len() ==> #[trigger] s.subrange(
            j,
            j + d.len(),
        ) != d,
    ensures
        find_sub(s, d) == r,
    decreases s.len(),
{
    if r == 0 {
        assert(s.take(d.len() as int) =~= s.subrange(0, 0int + d.len()));
    } else {
        assert(s.subrange(0, 0int + d.len()) != d);
        assert(s.take(d.len() as int) =~= s.subrange(0, 0int + d.len()));
        let t = s.drop_first();
        assert(t.subrange(r - 1, r - 1 + d.len()) =~= s.subrange(r, r + d.len()));
        assert forall|j: int|
            0 <= j < r - 1 && j + d.len() <= t.len() implies #[trigger] t.subrange(j, j + d.len())
            != d by {
            assert(t.subrange(j, j + d.len()) =~= s.subrange(j + 1, j + 1 + d.len()));
        }
        lemma_find_sub_at(t, d, r - 1);
    }
}

/// The leading and trailing whitespace stripped.
pub open spec fn trim_spec(s: Seq<char>) -> Seq<char> {
    trim_end(trim_start(s))
}

pub open spec fn trim_start(s: Seq<char>) -> Seq<char>
    decreases s.len(),
{
    if s.len() > 0 && is_space(s.first()) {
        trim_start(s.drop_first())
    } else {
        s
    }
}

pub open spec fn trim_end(s: Seq<char>) -> Seq<char>
    decreases s.len(),
{
    if s.len() > 0 && is_space(s.last()) {
        trim_end(s.drop_last())
    } else {
        s
    }
}

pub proof fn lemma_trim_start_props(s: Seq<char>)
    ensures
        trim_start(s).len() <= s.len(),
        trim_start(s) == s.skip(s.len() - trim_start(s).len()),
        trim_start(s).len() > 0 ==> !is_space(trim_start(s).first()),
    decreases s.len(),
{
    if s.len() > 0 && is_space(s.first()) {
        lemma_trim_start_props(s.drop_first());
        let t = trim_start(s);
        assert(s.drop_first().skip(s.drop_first().len() - t.len()) =~= s.skip(s.len() - t.len()));
    } else {
        assert(s.skip(0) =~= s);
    }
}

pub proof fn lemma_trim_end_props(s: Seq<char>)
    ensures
        trim_end(s).len() <= s.len(),
        trim_end(s) == s.take(trim_end(s).len() as int),
        trim_end(s).len() > 0 ==> !is_space(trim_end(s).last()),
    decreases s.len(),
{
    if s.len() > 0 && is_space(s.last()) {
        lemma_trim_end_props(s.drop_last());
        let t = trim_end(s);
        assert(s.drop_last().take(t.len() as int) =~= s.take(t.len() as int));
    } else {
        assert(s.take(s.len() as int) =~= s);
    }
}

/// Trimming is idempotent.
pub proof fn lemma_trim_idempotent(s: Seq<char>)
    ensures
        trim_spec(trim_spec(s)) == trim_spec(s),
{
    let t = trim_spec(s);
    lemma_trim_start_props(s);
    lemma_trim_end_props(trim_start(s));
    if t.len() > 0 {
        lemma_trim_start_props(trim_start(s));
        assert(!is_space(trim_start(s).first()));
        assert(t == trim_start(s).take(t.len() as int));
        assert(t.first() == trim_start(s).first());
        assert(trim_start(t) == t);
        assert(trim_end(t) == t);
    } else {
        assert(trim_start(t) == t);
        assert(trim_end(t) == t);
    }
}

/// The character-wise lowercase image.
pub open spec fn lower_spec(s: Seq<char>) -> Seq<char> {
    s.map_values(|c: char| lower_char(c))
}

/// The character-wise uppercase image.
pub open spec fn upper_spec(s: Seq<char>) -> Seq<char> {
    s.map_values(|c: char| upper_char(c))
}

/// Lowercasing a text twice is the same as lowercasing it once.
pub proof fn lemma_lower_idempotent(s: Seq<char>)
    ensures
        lower_spec(lower_spec(s)) == lower_spec(s),
{
    assert(lower_spec(lower_spec(s)) =~= lower_spec(s));
}

/// Uppercasing a text twice is the same as uppercasing it once.
pub proof fn lemma_upper_idempotent(s: Seq<char>)
    ensures
        upper_spec(upper_spec(s)) == upper_spec(s),
{
    assert(upper_spec(upper_spec(s)) =~= upper_spec(s));
}

/// Lowercases every character.
pub fn lower_chars(s: &Vec<char>) -> (r: Vec<char>)
    ensures
        r@ == lower_spec(s@),
{
    let mut out: Vec<char> = Vec::new();
    let n = s.len();
    let mut i: usize = 0;
    while i < n
        invariant
            i <= n,
            n == s@.len(),
            out@.len() == i as int,
            forall|j: int| 0 <= j < i as int ==> out@[j] == lower_char(s@[j]),
        decreases n - i,
    {
        out.push(to_lower_char(s[i]));
        i = i + 1;
    }
    proof {
        assert(out@ =~= lower_spec(s@));
    }
    out
}

/// Uppercases every character.
pub fn upper_chars(s: &Vec<char>) -> (r: Vec<char>)
    ensures
        r@ == upper_spec(s@),
{
    let mut out: Vec<char> = Vec::new();
    let n = s.len();
    let mut i: usize = 0;
    while i < n
        invariant
            i <= n,
            n == s@.len(),
            out@.len() == i as int,
            forall|j: int| 0 <= j < i as int ==> out@[j] == upper_char(s@[j]),
        decreases n - i,
    {
        out.push(to_upper_char(s[i]));
        i = i + 1;
    }
    proof {
        assert(out@ =~= upper_spec(s@));
    }
    out
}

/// Strips leading and trailing whitespace.
pub fn trim_chars(s: &Vec<char>) -> (r: Vec<char>)
    ensures
        r@ == trim_spec(s@),
{
    let n = s.len();
    let mut start: usize = 0;
    proof {
        lemma_trim_start_props(s@);
        assert(s@.skip(0) =~= s@);
    }
    while start < n && is_space_char(s[start])
        invariant
            start <= n,
            n == s@.len(),
            trim_start(s@) == trim_start(s@.skip(start as int)),
        decreases n - start,
    {
        proof {
            assert(s@.skip(start as int).drop_first() =~= s@.skip(start as int + 1));
        }
        start = start + 1;
    }
    let mut end: usize = n;
    proof {
        if start < n {
            assert(s@.skip(start as int).len() > 0);
        }
        lemma_trim_end_props(s@.skip(start as int));
        assert(s@.skip(start as int).take(end - start as int) =~= s@.skip(start as int));
    }
    while end > start && is_space_char(s[end - 1])
        invariant
            start <= end <= n,
            n == s@.len(),
            trim_start(s@) == trim_start(s@.skip(start as int)),
            start < n ==> !is_space(s@[start as int]),
            trim_end(s@.skip(start as int)) == trim_end(
                s@.skip(start as int).take(end - start as int),
            ),
        decreases end,
    {
        proof {
            let cur = s@.skip(start as int).take(end - start as int);
            assert(cur.last() == s@[end - 1]);
            assert(cur.drop_last() =~= s@.skip(start as int).take(end - 1 - start as int));
        }
        end = end - 1;
    }
    let mut out: Vec<char> = Vec::new();
    let mut i = start;
    while i < end
        invariant
            start <= i <= end <= n,
            n == s@.len(),
            out@ =~= s@.subrange(start as int, i as int),
        decreases end - i,
    {
        out.push(s[i]);
        proof {
            assert(s@.subrange(start as int, i as int).push(s@[i as int]) =~= s@.subrange(
                start as int,
                i + 1 as int,
            ));
        }
        i = i + 1;
    }
    proof {
        let tail = s@.skip(start as int);
        if start < n {
            assert(!is_space(tail.first()));
            assert(trim_start(tail) == tail);
        } else {
            assert(tail.len() == 0);
            assert(trim_start(tail) == tail);
        }
        let cur = tail.take(end - start as int);
        if end > start {
            assert(!is_space(s@[end - 1]));
            assert(cur.last() == s@[end - 1]);
            assert(trim_end(cur) == cur);
        } else {
            assert(cur.len() == 0);
            assert(trim_end(cur) == cur);
        }
        assert(trim_spec(s@) == cur);
        assert(out@ =~= cur);
    }
    out
}

} // verus!
