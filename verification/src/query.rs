//! Reading the room name out of a connection request's query string. A
//! query string is parameters separated by `&`; a parameter is pieces
//! separated by `=`; the first parameter whose first piece is `room` gives
//! the room (its second piece), and without one the room is `"general"`.

use vstd::prelude::*;
use vstd::string::StrSliceExecFns;
use vstd::string::StringExecFns;

verus! {

/// Splitting at every occurrence of `sep`, the way `str::split` does it:
/// n separators yield n + 1 pieces, empty pieces included.
pub open spec fn split_on(s: Seq<char>, sep: char) -> Seq<Seq<char>>
    decreases s.len(),
{
    if s.len() == 0 {
        seq![Seq::<char>::empty()]
    } else if s[0] == sep {
        seq![Seq::<char>::empty()] + split_on(s.drop_first(), sep)
    } else {
        let rest = split_on(s.drop_first(), sep);
        seq![seq![s[0]] + rest[0]] + rest.drop_first()
    }
}

/// The room a single parameter names: its second `=`-piece, provided its
/// first piece is exactly `room`.
pub open spec fn room_param_value(p: Seq<char>) -> Option<Seq<char>> {
    let parts = split_on(p, '=');
    if parts.len() >= 2 && parts[0] == "room"@ {
        Some(parts[1])
    } else {
        None
    }
}

/// The room the parameter list names: the first parameter that names one
/// decides.
pub open spec fn first_room_value(params: Seq<Seq<char>>) -> Option<Seq<char>>
    decreases params.len(),
{
    if params.len() == 0 {
        None
    } else if room_param_value(params[0]) is Some {
        room_param_value(params[0])
    } else {
        first_room_value(params.drop_first())
    }
}

/// The room a connection joins, read from its query string: the value of
/// the first `room` parameter, or `"general"` when no parameter names one
/// (or there is no query string at all).
pub open spec fn room_of_query(q: Option<Seq<char>>) -> Seq<char> {
    match q {
        Some(s) => match first_room_value(split_on(s, '&')) {
            Some(v) => v,
            None => "general"@,
        },
        None => "general"@,
    }
}

/// How `split_on` relates to the position `i` of the first separator
/// (`i == s.len()` when there is none): the head piece is everything up to
/// `i`, and the tail pieces are the split of everything past it.
proof fn lemma_split_on_first(s: Seq<char>, sep: char, i: int)
    requires
        0 <= i <= s.len(),
        forall|j: int| 0 <= j < i ==> s[j] != sep,
        i < s.len() ==> s[i] == sep,
    ensures
        split_on(s, sep).len() >= 1,
        split_on(s, sep)[0] == s.subrange(0, i),
        i < s.len() ==> split_on(s, sep) == seq![s.subrange(0, i)] + split_on(
            s.subrange(i + 1, s.len() as int),
            sep,
        ),
        i == s.len() ==> split_on(s, sep) == seq![s],
    decreases s.len(),
{
    if s.len() == 0 {
        assert(split_on(s, sep) =~~= seq![s]);
        assert(s.subrange(0, 0) =~= s);
    } else if s[0] == sep {
        assert(i == 0);
        assert(s.subrange(0, 0) =~= Seq::<char>::empty());
        assert(s.drop_first() =~= s.subrange(1, s.len() as int));
        assert(split_on(s, sep) =~~= seq![s.subrange(0, 0)] + split_on(
            s.subrange(1, s.len() as int),
            sep,
        ));
    } else {
        assert(i >= 1);
        let d = s.drop_first();
        assert(forall|j: int| 0 <= j < i - 1 ==> #[trigger] d[j] == s[j + 1]);
        lemma_split_on_first(d, sep, i - 1);
        let rest = split_on(d, sep);
        assert(rest[0] == d.subrange(0, i - 1));
        assert(seq![s[0]] + d.subrange(0, i - 1) =~= s.subrange(0, i));
        assert(split_on(s, sep)[0] == s.subrange(0, i));
        if i < s.len() {
            assert(d.subrange(i - 1 + 1, d.len() as int) =~= s.subrange(i + 1, s.len() as int));
            assert(rest =~~= seq![d.subrange(0, i - 1)] + split_on(
                s.subrange(i + 1, s.len() as int),
                sep,
            ));
            assert(rest.drop_first() =~~= split_on(s.subrange(i + 1, s.len() as int), sep));
            assert(split_on(s, sep) =~~= seq![s.subrange(0, i)] + split_on(
                s.subrange(i + 1, s.len() as int),
                sep,
            ));
        } else {
            assert(rest =~~= seq![d]);
            assert(seq![s[0]] + d =~= s);
            assert(split_on(s, sep) =~~= seq![s]);
        }
    }
}

/// The index of the first `c` at or past `from` and before `to`, or `to`
/// when there is none.
fn find_char(s: &str, from: usize, to: usize, c: char) -> (r: usize)
    requires
        from <= to <= s@.len(),
    ensures
        from <= r <= to,
        forall|j: int| from <= j < r ==> s@[j] != c,
        r < to ==> s@[r as int] == c,
{
    let mut j = from;
    while j < to
        invariant
            from <= j <= to,
            to <= s@.len(),
            forall|k: int| from <= k < j ==> s@[k] != c,
        decreases to - j,
    {
        if s.get_char(j) == c {
            return j;
        }
        j = j + 1;
    }
    to
}

/// Character-by-character equality of two string slices.
fn str_eq(a: &str, b: &str) -> (r: bool)
    ensures
        r == (a@ == b@),
{
    let na = a.unicode_len();
    let nb = b.unicode_len();
    if na != nb {
        return false;
    }
    let mut j: usize = 0;
    while j < na
        invariant
            j <= na,
            na == a@.len(),
            na == b@.len(),
            forall|k: int| 0 <= k < j ==> a@[k] == b@[k],
        decreases na - j,
    {
        if a.get_char(j) != b.get_char(j) {
            return false;
        }
        j = j + 1;
    }
    proof {
        assert(a@ =~= b@);
    }
    true
}

/// The room one parameter names, if any: the piece between the first and
/// second `=`, provided the piece before the first `=` is exactly `room`.
fn param_room_val(p: &str) -> (r: Option<String>)
    ensures
        match r {
            Some(v) => room_param_value(p@) == Some(v@),
            None => room_param_value(p@) is None,
        },
{
    let n = p.unicode_len();
    let e1 = find_char(p, 0, n, '=');
    if e1 == n {
        proof {
            lemma_split_on_first(p@, '=', n as int);
        }
        return None;
    }
    proof {
        lemma_split_on_first(p@, '=', e1 as int);
    }
    let key = p.substring_char(0, e1);
    if !str_eq(key, "room") {
        return None;
    }
    let e2 = find_char(p, e1 + 1, n, '=');
    proof {
        let rest = p@.subrange(e1 + 1, n as int);
        assert(forall|j: int|
            0 <= j < e2 - (e1 + 1) ==> #[trigger] rest[j] == p@[j + e1 + 1]);
        lemma_split_on_first(rest, '=', e2 - (e1 + 1));
        assert(split_on(p@, '=')[1] == rest.subrange(0, e2 - (e1 + 1)));
        assert(rest.subrange(0, e2 - (e1 + 1)) =~= p@.subrange(e1 + 1, e2 as int));
    }
    Some(p.substring_char(e1 + 1, e2).to_owned())
}

/// The room a connection joins, from its optional query string: the value
/// of the first `room` parameter, with `"general"` the default.
#[verifier::loop_isolation(false)]
pub fn room_from_query(query: Option<&str>) -> (room: String)
    ensures
        room@ == room_of_query(
            match query {
                Some(q) => Some(q@),
                None => None,
            },
        ),
{
    match query {
        None => String::from_str("general"),
        Some(q) => {
            let n = q.unicode_len();
            let mut start: usize = 0;
            proof {
                assert(q@.subrange(0, n as int) =~= q@);
            }
            loop
                invariant
                    start <= n,
                    n == q@.len(),
                    first_room_value(split_on(q@, '&')) == first_room_value(
                        split_on(q@.subrange(start as int, n as int), '&'),
                    ),
                decreases n - start,
            {
                let end = find_char(q, start, n, '&');
                let ghost suffix = q@.subrange(start as int, n as int);
                proof {
                    assert(forall|j: int|
                        0 <= j < end - start ==> #[trigger] suffix[j] == q@[j + start]);
                    assert(end < n ==> suffix[end - start] == q@[end as int]);
                    lemma_split_on_first(suffix, '&', end - start);
                    assert(suffix.subrange(0, end - start) =~= q@.subrange(
                        start as int,
                        end as int,
                    ));
                }
                let p = q.substring_char(start, end);
                match param_room_val(p) {
                    Some(v) => {
                        proof {
                            assert(split_on(suffix, '&')[0] == p@);
                            assert(first_room_value(split_on(suffix, '&')) == Some(v@));
                        }
                        return v;
                    }
                    None => {}
                }
                if end == n {
                    proof {
                        assert(suffix.subrange(0, end - start) =~= suffix);
                        assert(split_on(suffix, '&') =~~= seq![p@]);
                        assert(seq![p@].drop_first() =~~= Seq::<Seq<char>>::empty());
                        assert(first_room_value(Seq::<Seq<char>>::empty()) is None);
                        assert(first_room_value(split_on(suffix, '&')) is None);
                    }
                    return String::from_str("general");
                }
                proof {
                    let next = q@.subrange(end + 1, n as int);
                    assert(suffix.subrange(end - start + 1, suffix.len() as int) =~= next);
                    assert(split_on(suffix, '&') =~~= seq![p@] + split_on(next, '&'));
                    assert((seq![p@] + split_on(next, '&')).drop_first() =~~= split_on(
                        next,
                        '&',
                    ));
                }
                start = end + 1;
            }
        }
    }
}

} // verus!
