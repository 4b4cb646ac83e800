//! Character-level scanning of text lines: whitespace, searching, trimming,
//! splitting into lines and into whitespace-separated tokens.
use vstd::prelude::*;

verus! {

/// Unicode `White_Space`, the property `char::is_whitespace` tests.
pub open spec fn is_ws(c: char) -> bool {
    let u = c as u32;
    ||| (0x9 <= u && u <= 0xd)
    ||| u == 0x20
    ||| u == 0x85
    ||| u == 0xa0
    ||| u == 0x1680
    ||| (0x2000 <= u && u <= 0x200a)
    ||| u == 0x2028
    ||| u == 0x2029
    ||| u == 0x202f
    ||| u == 0x205f
    ||| u == 0x3000
}

/// Whether `c` is whitespace (Unicode `White_Space`).
pub fn is_whitespace(c: char) -> (r: bool)
    ensures
        r == is_ws(c),
{
    let u = c as u32;
    (0x9 <= u && u <= 0xd) || u == 0x20 || u == 0x85 || u == 0xa0 || u == 0x1680 || (0x2000 <= u && u
        <= 0x200a) || u == 0x2028 || u == 0x2029 || u == 0x202f || u == 0x205f || u == 0x3000
}

/// Whether `p` occurs in `s` at position `i`.
pub open spec fn occurs_at(s: Seq<char>, p: Seq<char>, i: int) -> bool {
    0 <= i && i + p.len() <= s.len() && s.subrange(i, i + p.len()) == p
}

/// The first position at or after `i` where `p` occurs in `s`.
pub open spec fn find_from(s: Seq<char>, p: Seq<char>, i: int) -> Option<int>
    decreases s.len() + 1 - i,
{
    if i < 0 || i + p.len() > s.len() {
        None
    } else if occurs_at(s, p, i) {
        Some(i)
    } else {
        find_from(s, p, i + 1)
    }
}

/// The first position where `p` occurs in `s`.
pub open spec fn find(s: Seq<char>, p: Seq<char>) -> Option<int> {
    find_from(s, p, 0)
}

/// Whether `p` occurs in `s`.
pub open spec fn contains(s: Seq<char>, p: Seq<char>) -> bool {
    find(s, p) is Some
}

/// A found position is an occurrence, and none comes before it.
pub proof fn lemma_find_from(s: Seq<char>, p: Seq<char>, i: int)
    requires
        0 <= i,
    ensures
        find_from(s, p, i) matches Some(j) ==> i <= j && occurs_at(s, p, j) && forall|k: int|
            i <= k < j ==> !occurs_at(s, p, k),
        find_from(s, p, i) is None ==> forall|k: int| i <= k ==> !occurs_at(s, p, k),
    decreases s.len() + 1 - i,
{
    if i + p.len() > s.len() {
    } else if !occurs_at(s, p, i) {
        lemma_find_from(s, p, i + 1);
    }
}

fn occurs_here(s: &[char], p: &[char], i: usize) -> (r: bool)
    requires
        i + p@.len() <= s@.len(),
    ensures
        r == occurs_at(s@, p@, i as int),
{
    let _ = s.len();
    let mut k: usize = 0;
    while k < p.len()
        invariant
            k <= p@.len(),
            s@.len() <= usize::MAX,
            i + p@.len() <= s@.len(),
            forall|j: int| 0 <= j < k ==> s@[i + j] == p@[j],
        decreases p@.len() - k,
    {
        if s[i + k] != p[k] {
            assert(s@.subrange(i as int, i + p@.len())[k as int] != p@[k as int]);
            return false;
        }
        k += 1;
    }
    assert(s@.subrange(i as int, i + p@.len()) =~= p@);
    true
}

/// The first position at or after `from` where `p` occurs in `s`.
pub fn find_at(s: &[char], p: &[char], from: usize) -> (r: Option<usize>)
    ensures
        match find_from(s@, p@, from as int) {
            Some(j) => r == Some(j as usize),
            None => r is None,
        },
{
    let mut i = from;
    while i <= s.len() && p.len() <= s.len() - i
        invariant
            from <= i,
            find_from(s@, p@, from as int) == find_from(s@, p@, i as int),
        decreases s@.len() + 1 - i,
    {
        if occurs_here(s, p, i) {
            return Some(i);
        }
        if i == s.len() {
            assert(find_from(s@, p@, i + 1) is None);
            return None;
        }
        i += 1;
    }
    None
}

/// Whether `p` occurs in `s`.
pub fn contains_text(s: &[char], p: &str) -> (r: bool)
    ensures
        r == contains(s@, p@),
{
    let pc = crate::text::chars_of(p);
    find_at(s, pc.as_slice(), 0).is_some()
}

/// Whether `s` starts with `p`.
pub fn starts_with_text(s: &[char], p: &str) -> (r: bool)
    ensures
        r == p@.is_prefix_of(s@),
{
    let pc = crate::text::chars_of(p);
    if pc.len() > s.len() {
        return false;
    }
    let r = occurs_here(s, pc.as_slice(), 0);
    assert(r == (s@.subrange(0, pc@.len() as int) == pc@));
    r
}

/// The number of whitespace characters that lead `s`.
pub open spec fn lead_ws(s: Seq<char>) -> nat
    decreases s.len(),
{
    if s.len() > 0 && is_ws(s[0]) {
        1 + lead_ws(s.drop_first())
    } else {
        0
    }
}

/// The number of whitespace characters that end `s`.
pub open spec fn trail_ws(s: Seq<char>) -> nat
    decreases s.len(),
{
    if s.len() > 0 && is_ws(s.last()) {
        1 + trail_ws(s.drop_last())
    } else {
        0
    }
}

/// `s` without its leading whitespace.
pub open spec fn trim_start(s: Seq<char>) -> Seq<char> {
    s.skip(lead_ws(s) as int)
}

/// `s` without its trailing whitespace.
pub open spec fn trim_end(s: Seq<char>) -> Seq<char> {
    s.take(s.len() - trail_ws(s))
}

/// `s` without leading or trailing whitespace.
pub open spec fn trim(s: Seq<char>) -> Seq<char> {
    trim_end(trim_start(s))
}

proof fn lemma_lead_ws(s: Seq<char>, k: int)
    requires
        0 <= k <= s.len(),
        forall|j: int| 0 <= j < k ==> is_ws(#[trigger] s[j]),
        k < s.len() ==> !is_ws(s[k]),
    ensures
        lead_ws(s) == k,
    decreases k,
{
    if k > 0 {
        assert forall|j: int| 0 <= j < k - 1 implies is_ws(#[trigger] s.drop_first()[j]) by {
            assert(s.drop_first()[j] == s[j + 1]);
        }
        if k < s.len() {
            assert(s.drop_first()[k - 1] == s[k]);
        }
        lemma_lead_ws(s.drop_first(), k - 1);
    }
}

proof fn lemma_trail_ws(s: Seq<char>, k: int)
    requires
        0 <= k <= s.len(),
        forall|j: int| s.len() - k <= j < s.len() ==> is_ws(#[trigger] s[j]),
        k < s.len() ==> !is_ws(s[s.len() - k - 1]),
    ensures
        trail_ws(s) == k,
    decreases k,
{
    if k > 0 {
        assert forall|j: int| s.drop_last().len() - (k - 1) <= j < s.drop_last().len() implies is_ws(
            #[trigger] s.drop_last()[j],
        ) by {
            assert(s.drop_last()[j] == s[j]);
        }
        if k < s.len() {
            assert(s.drop_last()[s.drop_last().len() - (k - 1) - 1] == s[s.len() - k - 1]);
        }
        lemma_trail_ws(s.drop_last(), k - 1);
    }
}

/// `s` without leading or trailing whitespace.
pub fn trim_chars(s: &[char]) -> (r: Vec<char>)
    ensures
        r@ == trim(s@),
{
    let n = s.len();
    let mut a: usize = 0;
    while a < n && is_whitespace(s[a])
        invariant
            a <= n,
            n == s@.len(),
            forall|j: int| 0 <= j < a ==> is_ws(#[trigger] s@[j]),
        decreases n - a,
    {
        a += 1;
    }
    proof {
        lemma_lead_ws(s@, a as int);
    }
    let ghost t = s@.skip(a as int);
    let mut b: usize = n;
    while b > a && is_whitespace(s[b - 1])
        invariant
            a <= b <= n,
            n == s@.len(),
            t == s@.skip(a as int),
            forall|j: int| b <= j < n ==> is_ws(#[trigger] s@[j]),
        decreases b,
    {
        b -= 1;
    }
    proof {
        assert forall|j: int| t.len() - (n - b) <= j < t.len() implies is_ws(#[trigger] t[j]) by {
            assert(t[j] == s@[a + j]);
        }
        if n - b < t.len() {
            assert(t[t.len() - (n - b) - 1] == s@[b - 1]);
        }
        lemma_trail_ws(t, (n - b) as int);
    }
    let r = vstd::slice::slice_to_vec(vstd::slice::slice_subrange(s, a, b));
    assert(r@ =~= trim(s@));
    r
}

proof fn lemma_lead_ws_props(s: Seq<char>)
    ensures
        lead_ws(s) <= s.len(),
        forall|j: int| 0 <= j < lead_ws(s) ==> is_ws(#[trigger] s[j]),
        lead_ws(s) < s.len() ==> !is_ws(s[lead_ws(s) as int]),
    decreases s.len(),
{
    if s.len() > 0 && is_ws(s[0]) {
        lemma_lead_ws_props(s.drop_first());
        assert forall|j: int| 0 <= j < lead_ws(s) implies is_ws(#[trigger] s[j]) by {
            if j > 0 {
                assert(s[j] == s.drop_first()[j - 1]);
            }
        }
        if lead_ws(s) < s.len() {
            assert(s[lead_ws(s) as int] == s.drop_first()[lead_ws(s.drop_first()) as int]);
        }
    }
}

proof fn lemma_trail_ws_props(s: Seq<char>)
    ensures
        trail_ws(s) <= s.len(),
        trail_ws(s) < s.len() ==> !is_ws(s[s.len() - trail_ws(s) - 1]),
    decreases s.len(),
{
    if s.len() > 0 && is_ws(s.last()) {
        lemma_trail_ws_props(s.drop_last());
        if trail_ws(s) < s.len() {
            assert(s[s.len() - trail_ws(s) - 1] == s.drop_last()[s.drop_last().len() - trail_ws(s.drop_last()) - 1]);
        }
    }
}

/// Trimming twice is trimming once.
pub proof fn lemma_trim_idempotent(s: Seq<char>)
    ensures
        trim(trim(s)) == trim(s),
{
    let u = trim_start(s);
    lemma_lead_ws_props(s);
    lemma_trail_ws_props(u);
    let r = trim(s);
    if r.len() == 0 {
        assert(trim(r) =~= r);
    } else {
        assert(r[0] == u[0]);
        assert(u[0] == s[lead_ws(s) as int]);
        assert(lead_ws(r) == 0);
        assert(r.last() == u[u.len() - trail_ws(u) - 1]);
        assert(trail_ws(r) == 0);
        assert(trim(r) =~= r);
    }
}

/// The number of characters that lead `s` before its first whitespace.
pub open spec fn word_len(s: Seq<char>) -> nat
    decreases s.len(),
{
    if s.len() > 0 && !is_ws(s[0]) {
        1 + word_len(s.drop_first())
    } else {
        0
    }
}

pub proof fn lemma_word_len(s: Seq<char>, k: int)
    requires
        0 <= k <= s.len(),
        forall|j: int| 0 <= j < k ==> !is_ws(#[trigger] s[j]),
        k < s.len() ==> is_ws(s[k]),
    ensures
        word_len(s) == k,
    decreases k,
{
    if k > 0 {
        assert forall|j: int| 0 <= j < k - 1 implies !is_ws(#[trigger] s.drop_first()[j]) by {
            assert(s.drop_first()[j] == s[j + 1]);
        }
        if k < s.len() {
            assert(s.drop_first()[k - 1] == s[k]);
        }
        lemma_word_len(s.drop_first(), k - 1);
    }
}

proof fn lemma_lead_ws_bound(s: Seq<char>)
    ensures
        lead_ws(s) <= s.len(),
    decreases s.len(),
{
    if s.len() > 0 && is_ws(s[0]) {
        lemma_lead_ws_bound(s.drop_first());
    }
}

pub proof fn lemma_word_len_bound(s: Seq<char>)
    ensures
        word_len(s) <= s.len(),
        s.len() > 0 && !is_ws(s[0]) ==> word_len(s) > 0,
    decreases s.len(),
{
    if s.len() > 0 && !is_ws(s[0]) {
        lemma_word_len_bound(s.drop_first());
    }
}

/// The whitespace-separated tokens of `s`, in order (`str::split_whitespace`).
pub open spec fn tokens(s: Seq<char>) -> Seq<Seq<char>>
    decreases s.len(),
{
    let t = trim_start(s);
    if t.len() == 0 {
        Seq::empty()
    } else {
        let w = word_len(t);
        if w == 0 || t.len() > s.len() {
            Seq::empty()
        } else {
            proof {
                lemma_word_len_bound(t);
            }
            seq![t.take(w as int)] + tokens(t.skip(w as int))
        }
    }
}

/// The whitespace-separated tokens of `s`, in order.
pub fn split_whitespace(s: &[char]) -> (r: Vec<Vec<char>>)
    ensures
        r@.map_values(|v: Vec<char>| v@) == tokens(s@),
{
    let mut out: Vec<Vec<char>> = Vec::new();
    let mut pos: usize = 0;
    let n = s.len();
    assert(s@.skip(0) =~= s@);
    assert(out@.map_values(|v: Vec<char>| v@) =~= Seq::<Seq<char>>::empty());
    while pos < n
        invariant
            pos <= n,
            n == s@.len(),
            out@.map_values(|v: Vec<char>| v@) + tokens(s@.skip(pos as int)) == tokens(s@),
        decreases n - pos,
    {
        let ghost rest = s@.skip(pos as int);
        let mut a = pos;
        while a < n && is_whitespace(s[a])
            invariant
                pos <= a <= n,
                n == s@.len(),
                forall|j: int| pos <= j < a ==> is_ws(#[trigger] s@[j]),
            decreases n - a,
        {
            a += 1;
        }
        proof {
            assert forall|j: int| 0 <= j < a - pos implies is_ws(#[trigger] rest[j]) by {
                assert(rest[j] == s@[pos + j]);
            }
            if a < n {
                assert(rest[a - pos] == s@[a as int]);
            }
            lemma_lead_ws(rest, a - pos);
            assert(trim_start(rest) =~= s@.skip(a as int));
        }
        if a == n {
            assert(tokens(rest) == Seq::<Seq<char>>::empty());
            pos = n;
            assert(s@.skip(n as int) =~= Seq::<char>::empty());
            assert(tokens(s@.skip(n as int)) == Seq::<Seq<char>>::empty()) by {
                assert(trim_start(Seq::<char>::empty()) =~= Seq::<char>::empty());
            }
        } else {
            let ghost t = s@.skip(a as int);
            let mut b = a;
            while b < n && !is_whitespace(s[b])
                invariant
                    a <= b <= n,
                    n == s@.len(),
                    forall|j: int| a <= j < b ==> !is_ws(#[trigger] s@[j]),
                decreases n - b,
            {
                b += 1;
            }
            proof {
                assert forall|j: int| 0 <= j < b - a implies !is_ws(#[trigger] t[j]) by {
                    assert(t[j] == s@[a + j]);
                }
                if b < n {
                    assert(t[b - a] == s@[b as int]);
                }
                lemma_word_len(t, b - a);
                assert(t[0] == s@[a as int]);
                assert(tokens(rest) == seq![t.take(b - a)] + tokens(t.skip(b - a)));
                assert(t.skip(b - a) =~= s@.skip(b as int));
            }
            let w = vstd::slice::slice_to_vec(vstd::slice::slice_subrange(s, a, b));
            assert(w@ =~= t.take(b - a));
            let ghost before = out@;
            out.push(w);
            assert(out@.map_values(|v: Vec<char>| v@) =~= before.map_values(|v: Vec<char>| v@).push(w@));
            assert(out@.map_values(|v: Vec<char>| v@) + tokens(s@.skip(b as int)) =~= before.map_values(
                |v: Vec<char>| v@,
            ) + tokens(rest));
            pos = b;
        }
    }
    assert(s@.skip(pos as int) =~= Seq::<char>::empty());
    assert(tokens(Seq::<char>::empty()) == Seq::<Seq<char>>::empty()) by {
        assert(trim_start(Seq::<char>::empty()) =~= Seq::<char>::empty());
    }
    assert(out@.map_values(|v: Vec<char>| v@) =~= tokens(s@));
    out
}

/// The lines of `s`: the pieces between line feeds, without a last empty piece
/// after a final line feed.
pub open spec fn split_lines(s: Seq<char>) -> Seq<Seq<char>>
    decreases s.len(),
{
    match find(s, seq!['\n']) {
        Some(i) => if 0 <= i < s.len() {
            seq![s.take(i)] + split_lines(s.skip(i + 1))
        } else {
            Seq::empty()
        },
        None => if s.len() == 0 {
            Seq::empty()
        } else {
            seq![s]
        },
    }
}

/// The lines of `s`.
pub fn lines_of(s: &[char]) -> (r: Vec<Vec<char>>)
    ensures
        r@.map_values(|v: Vec<char>| v@) == split_lines(s@),
{
    let nl: [char; 1] = ['\n'];
    let nls = nl.as_slice();
    assert(nls@ =~= seq!['\n']);
    let mut out: Vec<Vec<char>> = Vec::new();
    let mut pos: usize = 0;
    let n = s.len();
    assert(s@.skip(0) =~= s@);
    assert(out@.map_values(|v: Vec<char>| v@) =~= Seq::<Seq<char>>::empty());
    loop
        invariant
            pos <= n,
            n == s@.len(),
            nls@ == seq!['\n'],
            out@.map_values(|v: Vec<char>| v@) + split_lines(s@.skip(pos as int)) == split_lines(s@),
        decreases n - pos,
    {
        let ghost rest = s@.skip(pos as int);
        let found = find_at(s, nls, pos);
        proof {
            lemma_find_from(s@, seq!['\n'], pos as int);
            lemma_find_from(rest, seq!['\n'], 0);
            assert forall|k: int| 0 <= k implies occurs_at(rest, seq!['\n'], k) == occurs_at(
                s@,
                seq!['\n'],
                pos + k,
            ) by {
                if 0 <= k && k + 1 <= rest.len() {
                    assert(rest.subrange(k, k + 1) =~= s@.subrange(pos + k, pos + k + 1));
                }
            }
        }
        match found {
            Some(i) => {
                assert(find(rest, seq!['\n']) == Some(i - pos)) by {
                    lemma_find_unique(rest, seq!['\n'], i - pos);
                }
                let piece = vstd::slice::slice_to_vec(vstd::slice::slice_subrange(s, pos, i));
                assert(piece@ =~= rest.take(i - pos));
                assert(rest.skip(i - pos + 1) =~= s@.skip(i + 1));
                let ghost before = out@;
                out.push(piece);
                assert(out@.map_values(|v: Vec<char>| v@) =~= before.map_values(|v: Vec<char>| v@).push(piece@));
                assert(out@.map_values(|v: Vec<char>| v@) + split_lines(s@.skip(i + 1)) =~= before.map_values(
                    |v: Vec<char>| v@,
                ) + split_lines(rest));
                pos = i + 1;
            },
            None => {
                assert(find(rest, seq!['\n']) is None) by {
                    if find(rest, seq!['\n']) is Some {
                        let j = find(rest, seq!['\n'])->0;
                        assert(occurs_at(s@, seq!['\n'], pos + j));
                    }
                }
                if pos < n {
                    let piece = vstd::slice::slice_to_vec(vstd::slice::slice_subrange(s, pos, n));
                    assert(piece@ =~= rest);
                    let ghost before = out@;
                    out.push(piece);
                    assert(out@.map_values(|v: Vec<char>| v@) =~= before.map_values(|v: Vec<char>| v@) + split_lines(
                        rest,
                    ));
                } else {
                    assert(rest.len() == 0);
                    assert(out@.map_values(|v: Vec<char>| v@) =~= out@.map_values(|v: Vec<char>| v@) + split_lines(
                        rest,
                    ));
                }
                return out;
            },
        }
    }
}

proof fn lemma_find_unique(s: Seq<char>, p: Seq<char>, j: int)
    requires
        occurs_at(s, p, j),
        forall|k: int| 0 <= k < j ==> !occurs_at(s, p, k),
    ensures
        find(s, p) == Some(j),
{
    lemma_find_from(s, p, 0);
    match find(s, p) {
        Some(i) => {
            if i < j {
                assert(!occurs_at(s, p, i));
            }
            if i > j {
                assert(!occurs_at(s, p, j));
            }
        },
        None => {
            assert(!occurs_at(s, p, j));
        },
    }
}

/// `s` without the trailing characters that belong to `set`.
pub open spec fn drop_trailing(s: Seq<char>, set: Seq<char>) -> Seq<char>
    decreases s.len(),
{
    if s.len() > 0 && set.contains(s.last()) {
        drop_trailing(s.drop_last(), set)
    } else {
        s
    }
}

/// `s` without the trailing characters that belong to `set`
/// (`str::trim_end_matches` with a set of characters).
pub fn trim_end_set(s: &[char], set: &[char]) -> (r: Vec<char>)
    ensures
        r@ == drop_trailing(s@, set@),
{
    let mut b = s.len();
    assert(s@.take(b as int) =~= s@);
    while b > 0 && slice_has(set, s[b - 1])
        invariant
            b <= s@.len(),
            drop_trailing(s@.take(b as int), set@) == drop_trailing(s@, set@),
        decreases b,
    {
        assert(s@.take(b as int).drop_last() =~= s@.take(b - 1));
        b -= 1;
    }
    let r = vstd::slice::slice_to_vec(vstd::slice::slice_subrange(s, 0, b));
    assert(r@ =~= s@.take(b as int));
    r
}

/// Whether `set` holds `c`.
pub fn slice_has(set: &[char], c: char) -> (r: bool)
    ensures
        r == set@.contains(c),
{
    let mut i: usize = 0;
    while i < set.len()
        invariant
            i <= set@.len(),
            forall|j: int| 0 <= j < i ==> set@[j] != c,
        decreases set@.len() - i,
    {
        if set[i] == c {
            return true;
        }
        i += 1;
    }
    false
}

/// The pieces of `s` between occurrences of `c` (`str::split` with a character).
pub open spec fn split_on(s: Seq<char>, c: char) -> Seq<Seq<char>>
    decreases s.len(),
{
    match find(s, seq![c]) {
        Some(i) => if 0 <= i < s.len() {
            seq![s.take(i)] + split_on(s.skip(i + 1), c)
        } else {
            seq![s]
        },
        None => seq![s],
    }
}

/// The pieces of `s` between occurrences of `c`.
pub fn split_char(s: &[char], c: char) -> (r: Vec<Vec<char>>)
    ensures
        r@.map_values(|v: Vec<char>| v@) == split_on(s@, c),
{
    let sep: [char; 1] = [c];
    let seps = sep.as_slice();
    assert(seps@ =~= seq![c]);
    let mut out: Vec<Vec<char>> = Vec::new();
    let mut pos: usize = 0;
    let n = s.len();
    assert(s@.skip(0) =~= s@);
    assert(out@.map_values(|v: Vec<char>| v@) =~= Seq::<Seq<char>>::empty());
    loop
        invariant
            pos <= n,
            n == s@.len(),
            seps@ == seq![c],
            out@.map_values(|v: Vec<char>| v@) + split_on(s@.skip(pos as int), c) == split_on(s@, c),
        decreases n - pos,
    {
        let ghost rest = s@.skip(pos as int);
        let found = find_at(s, seps, pos);
        proof {
            lemma_find_from(s@, seq![c], pos as int);
            lemma_find_from(rest, seq![c], 0);
            assert forall|k: int| 0 <= k implies occurs_at(rest, seq![c], k) == occurs_at(s@, seq![c], pos + k) by {
                if 0 <= k && k + 1 <= rest.len() {
                    assert(rest.subrange(k, k + 1) =~= s@.subrange(pos + k, pos + k + 1));
                }
            }
        }
        match found {
            Some(i) => {
                assert(find(rest, seq![c]) == Some(i - pos)) by {
                    lemma_find_unique(rest, seq![c], i - pos);
                }
                let piece = vstd::slice::slice_to_vec(vstd::slice::slice_subrange(s, pos, i));
                assert(piece@ =~= rest.take(i - pos));
                assert(rest.skip(i - pos + 1) =~= s@.skip(i + 1));
                let ghost before = out@;
                out.push(piece);
                assert(out@.map_values(|v: Vec<char>| v@) =~= before.map_values(|v: Vec<char>| v@).push(piece@));
                assert(out@.map_values(|v: Vec<char>| v@) + split_on(s@.skip(i + 1), c) =~= before.map_values(
                    |v: Vec<char>| v@,
                ) + split_on(rest, c));
                pos = i + 1;
            },
            None => {
                assert(find(rest, seq![c]) is None) by {
                    if find(rest, seq![c]) is Some {
                        let j = find(rest, seq![c])->0;
                        assert(occurs_at(s@, seq![c], pos + j));
                    }
                }
                let piece = vstd::slice::slice_to_vec(vstd::slice::slice_subrange(s, pos, n));
                assert(piece@ =~= rest);
                let ghost before = out@;
                out.push(piece);
                assert(out@.map_values(|v: Vec<char>| v@) =~= before.map_values(|v: Vec<char>| v@) + split_on(rest, c));
                return out;
            },
        }
    }
}

} // verus!
