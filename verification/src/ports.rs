//! Port-range codec: parsing a comma-separated list of ports and
//! inclusive ranges (`"80,443,8000-8002"`) into a deduplicated,
//! ordered set of 16-bit ports, and rendering such a set back into
//! the same compact textual form.

use vstd::prelude::*;

verus! {

/// True when `s` is strictly increasing: sorted with no duplicates.
pub open spec fn sorted_strict(s: Seq<u16>) -> bool {
    forall|i: int, j: int| 0 <= i < j < s.len() ==> s[i] < s[j]
}

/// True when `c` is a decimal digit.
pub open spec fn is_digit(c: char) -> bool {
    '0' <= c && c <= '9'
}

/// Numeric value of a digit character.
pub open spec fn digit_val(c: char) -> int {
    c as int - '0' as int
}

/// The digit character for a value in `0..10`.
pub open spec fn digit_char(d: int) -> char {
    if d == 0 {
        '0'
    } else if d == 1 {
        '1'
    } else if d == 2 {
        '2'
    } else if d == 3 {
        '3'
    } else if d == 4 {
        '4'
    } else if d == 5 {
        '5'
    } else if d == 6 {
        '6'
    } else if d == 7 {
        '7'
    } else if d == 8 {
        '8'
    } else {
        '9'
    }
}

/// True when every character of `s` is a decimal digit.
pub open spec fn all_digits(s: Seq<char>) -> bool {
    forall|i: int| 0 <= i < s.len() ==> is_digit(s[i])
}

/// The value of a digit string, read left to right.
pub open spec fn digits_val(s: Seq<char>) -> int
    decreases s.len(),
{
    if s.len() == 0 {
        0
    } else {
        digits_val(s.drop_last()) * 10 + digit_val(s.last())
    }
}

/// What a single bound of a range token means: a non-empty string of
/// decimal digits whose value fits in 16 bits, and nothing else.
pub open spec fn parse_port(s: Seq<char>) -> Option<u16> {
    if s.len() > 0 && all_digits(s) && digits_val(s) <= 65535 {
        Some(digits_val(s) as u16)
    } else {
        None
    }
}

/// Index of the first occurrence of `c` in `s`, or `s.len()` if absent.
pub open spec fn find_char(s: Seq<char>, c: char) -> int
    decreases s.len(),
{
    if s.len() == 0 {
        0
    } else if s[0] == c {
        0
    } else {
        1 + find_char(s.skip(1), c)
    }
}

/// The ports an inclusive range covers; empty when `a > b`.
pub open spec fn range_set(a: u16, b: u16) -> Set<u16> {
    Set::new(|p: u16| a <= p && p <= b)
}

/// What one comma-separated token denotes: a bare port, or an
/// inclusive `start-end` range split at the token's first `-`.
/// `None` marks a malformed token.
pub open spec fn token_ports(t: Seq<char>) -> Option<Set<u16>> {
    let j = find_char(t, '-');
    if 0 <= j && j < t.len() {
        match (parse_port(t.take(j)), parse_port(t.skip(j + 1))) {
            (Some(a), Some(b)) => Some(range_set(a, b)),
            _ => None,
        }
    } else {
        match parse_port(t) {
            Some(p) => Some(range_set(p, p)),
            None => None,
        }
    }
}

/// Outcome of parsing a range expression: the set of ports it
/// denotes, or the first malformed token.
pub enum ParseOutcome {
    Ports(Set<u16>),
    Malformed(Seq<char>),
}

/// Meaning of a non-empty range expression: split at each comma,
/// take the union of the tokens' port sets, and report the first
/// malformed token as the error.
pub open spec fn spec_parse_tokens(s: Seq<char>) -> ParseOutcome
    decreases s.len(),
{
    let i = find_char(s, ',');
    if 0 <= i && i < s.len() {
        match token_ports(s.take(i)) {
            None => ParseOutcome::Malformed(s.take(i)),
            Some(ts) => match spec_parse_tokens(s.skip(i + 1)) {
                ParseOutcome::Ports(rest) => ParseOutcome::Ports(ts.union(rest)),
                ParseOutcome::Malformed(t) => ParseOutcome::Malformed(t),
            },
        }
    } else {
        match token_ports(s) {
            None => ParseOutcome::Malformed(s),
            Some(ts) => ParseOutcome::Ports(ts),
        }
    }
}

/// Meaning of a whole range expression: the empty string denotes the
/// empty port set; anything else is a comma-separated token list.
pub open spec fn spec_parse(s: Seq<char>) -> ParseOutcome {
    if s.len() == 0 {
        ParseOutcome::Ports(Set::empty())
    } else {
        spec_parse_tokens(s)
    }
}

/// `find_char` names the first occurrence: it is within bounds, hits
/// `c` when it is short of the length, and nothing before it is `c`.
proof fn lemma_find_char(s: Seq<char>, c: char)
    ensures
        0 <= find_char(s, c) <= s.len(),
        find_char(s, c) < s.len() ==> s[find_char(s, c)] == c,
        forall|k: int| 0 <= k < find_char(s, c) ==> s[k] != c,
    decreases s.len(),
{
    if s.len() == 0 {
    } else if s[0] == c {
    } else {
        lemma_find_char(s.skip(1), c);
        assert forall|k: int| 0 <= k < find_char(s, c) implies s[k] != c by {
            if k > 0 {
                assert(s.skip(1)[k - 1] != c);
            }
        }
    }
}

/// A digit string has a non-negative value.
proof fn lemma_digits_val_nonneg(s: Seq<char>)
    requires
        all_digits(s),
    ensures
        digits_val(s) >= 0,
    decreases s.len(),
{
    if s.len() > 0 {
        assert(all_digits(s.drop_last()));
        lemma_digits_val_nonneg(s.drop_last());
    }
}

/// Every prefix of a digit string has a value no larger than the
/// whole string's value.
proof fn lemma_digits_val_prefix(s: Seq<char>, i: int)
    requires
        all_digits(s),
        0 <= i <= s.len(),
    ensures
        digits_val(s.take(i)) <= digits_val(s),
    decreases s.len(),
{
    if i < s.len() {
        assert(all_digits(s.drop_last()));
        assert(s.drop_last().take(i) =~= s.take(i));
        lemma_digits_val_prefix(s.drop_last(), i);
        lemma_digits_val_nonneg(s.drop_last());
        assert(digits_val(s) == digits_val(s.drop_last()) * 10 + digit_val(s.last()));
        assert(digit_val(s.last()) >= 0);
        assert(digits_val(s.drop_last()) * 10 >= digits_val(s.drop_last())) by (nonlinear_arith)
            requires digits_val(s.drop_last()) >= 0;
    } else {
        assert(s.take(i) =~= s);
    }
}

/// Reads a decimal 16-bit number, exactly as `parse_port` defines it.
fn parse_port_str(t: &str) -> (r: Option<u16>)
    ensures
        r == parse_port(t@),
{
    let n = t.unicode_len();
    if n == 0 {
        return None;
    }
    let mut acc: u32 = 0;
    let mut i: usize = 0;
    while i < n
        invariant
            0 <= i <= n,
            n == t@.len(),
            all_digits(t@.take(i as int)),
            acc == digits_val(t@.take(i as int)),
            acc <= 65535,
        decreases n - i,
    {
        let c = t.get_char(i);
        if c < '0' || c > '9' {
            assert(!all_digits(t@));
            return None;
        }
        let d: u32 = c as u32 - 48;
        assert(d == digit_val(t@[i as int]));
        acc = acc * 10 + d;
        proof {
            assert(t@.take(i + 1).drop_last() =~= t@.take(i as int));
            assert(t@.take(i + 1).last() == t@[i as int]);
        }
        i += 1;
        if acc > 65535 {
            proof {
                if all_digits(t@) {
                    lemma_digits_val_prefix(t@, i as int);
                }
            }
            return None;
        }
    }
    proof {
        assert(t@.take(n as int) =~= t@);
    }
    Some(acc as u16)
}

/// Index of the first `c` in `s`, or the length when `c` is absent;
/// agrees with the spec-level `find_char`.
fn find_char_in(s: &str, c: char) -> (i: usize)
    ensures
        i == find_char(s@, c),
        i <= s@.len(),
{
    proof {
        lemma_find_char(s@, c);
    }
    let n = s.unicode_len();
    let mut i: usize = 0;
    while i < n
        invariant
            0 <= i <= n,
            n == s@.len(),
            forall|k: int| 0 <= k < i ==> s@[k] != c,
        decreases n - i,
    {
        if s.get_char(i) == c {
            proof {
                lemma_find_char(s@, c);
                if find_char(s@, c) < i {
                    assert(s@[find_char(s@, c)] != c);
                }
                if find_char(s@, c) > i {
                    assert(s@[i as int] != c);
                }
            }
            return i;
        }
        i += 1;
    }
    proof {
        lemma_find_char(s@, c);
        if find_char(s@, c) < s@.len() {
            assert(s@[find_char(s@, c)] != c);
        }
    }
    n
}

/// Decimal digits of a non-negative number, most significant first.
pub open spec fn digits_of(n: int) -> Seq<char>
    decreases n,
{
    if n < 10 {
        seq![digit_char(n)]
    } else {
        digits_of(n / 10).push(digit_char(n % 10))
    }
}

/// Text of one rendered interval: a bare number for a single port,
/// `start-end` for a longer run.
pub open spec fn interval_text(iv: (u16, u16)) -> Seq<char> {
    if iv.0 == iv.1 {
        digits_of(iv.0 as int)
    } else {
        digits_of(iv.0 as int) + seq!['-'] + digits_of(iv.1 as int)
    }
}

/// Coalesces a strictly sorted tail into maximal runs, given that
/// the run `lo..=hi` is open and every element of `s` exceeds `hi`.
pub open spec fn ivs_from(s: Seq<u16>, lo: u16, hi: u16) -> Seq<(u16, u16)>
    decreases s.len(),
{
    if s.len() == 0 {
        seq![(lo, hi)]
    } else if s[0] == hi + 1 {
        ivs_from(s.skip(1), lo, s[0])
    } else {
        seq![(lo, hi)] + ivs_from(s.skip(1), s[0], s[0])
    }
}

/// The maximal runs of consecutive ports of a strictly sorted
/// sequence, as closed intervals in ascending order.
pub open spec fn ivs_of(s: Seq<u16>) -> Seq<(u16, u16)> {
    if s.len() == 0 {
        Seq::empty()
    } else {
        ivs_from(s.skip(1), s[0], s[0])
    }
}

/// The set of ports a sequence of intervals covers.
pub open spec fn ivs_set(ivs: Seq<(u16, u16)>) -> Set<u16>
    decreases ivs.len(),
{
    if ivs.len() == 0 {
        Set::empty()
    } else {
        range_set(ivs[0].0, ivs[0].1).union(ivs_set(ivs.skip(1)))
    }
}

/// Rendered text of the intervals from index `k` on, including the
/// comma that separates them from what came before (absent for the
/// first interval).
pub open spec fn render_from(ivs: Seq<(u16, u16)>, k: int) -> Seq<char>
    decreases ivs.len() - k,
{
    if k < 0 || k >= ivs.len() {
        Seq::empty()
    } else {
        (if k > 0 {
            seq![',']
        } else {
            Seq::empty()
        }) + interval_text(ivs[k]) + render_from(ivs, k + 1)
    }
}

/// Canonical text of a strictly sorted port sequence: its maximal
/// runs, rendered in order and joined by commas.
pub open spec fn spec_render(s: Seq<u16>) -> Seq<char> {
    render_from(ivs_of(s), 0)
}

/// A non-negative number's digit string is non-empty, all digits,
/// and reads back to the same value.
proof fn lemma_digits_of(n: int)
    requires
        0 <= n,
    ensures
        digits_of(n).len() >= 1,
        all_digits(digits_of(n)),
        digits_val(digits_of(n)) == n,
    decreases n,
{
    if n < 10 {
        let s = digits_of(n);
        assert(s =~= seq![digit_char(n)]);
        assert(s.drop_last() =~= Seq::<char>::empty());
        assert(s.len() == 1);
        assert(s.last() == digit_char(n));
        assert(digits_val(s.drop_last()) == 0);
        assert(digits_val(s) == digits_val(s.drop_last()) * 10 + digit_val(s.last()));
    } else {
        lemma_digits_of(n / 10);
        let s = digits_of(n);
        let head = digits_of(n / 10);
        assert(s == head.push(digit_char(n % 10)));
        assert(s.drop_last() =~= head);
        assert(s.last() == digit_char(n % 10));
        assert forall|i: int| 0 <= i < s.len() implies is_digit(s[i]) by {
            if i < head.len() {
                assert(s[i] == head[i]);
            }
        }
        assert(digits_val(s) == digits_val(head) * 10 + digit_val(digit_char(n % 10)));
    }
}

/// When `c` first occurs at `i`, `find_char` returns `i`.
proof fn lemma_find_char_at(s: Seq<char>, c: char, i: int)
    requires
        0 <= i < s.len(),
        s[i] == c,
        forall|k: int| 0 <= k < i ==> s[k] != c,
    ensures
        find_char(s, c) == i,
{
    lemma_find_char(s, c);
    if find_char(s, c) < i {
        assert(s[find_char(s, c)] != c);
    }
}

/// When `c` does not occur in `s`, `find_char` returns the length.
proof fn lemma_find_char_absent(s: Seq<char>, c: char)
    requires
        forall|k: int| 0 <= k < s.len() ==> s[k] != c,
    ensures
        find_char(s, c) == s.len(),
{
    lemma_find_char(s, c);
    if find_char(s, c) < s.len() {
        assert(s[find_char(s, c)] != c);
    }
}

/// A rendered interval is a well-formed token: it holds no comma,
/// and parses back to exactly the interval's port range.
proof fn lemma_interval_token(a: u16, b: u16)
    requires
        a <= b,
    ensures
        interval_text((a, b)).len() >= 1,
        forall|k: int|
            0 <= k < interval_text((a, b)).len() ==> interval_text((a, b))[k] != ',',
        token_ports(interval_text((a, b))) == Some(range_set(a, b)),
{
    let da = digits_of(a as int);
    let db = digits_of(b as int);
    lemma_digits_of(a as int);
    lemma_digits_of(b as int);
    let tok = interval_text((a, b));
    if a == b {
        assert(tok == da);
        assert(forall|k: int| 0 <= k < tok.len() ==> is_digit(tok[k]));
        lemma_find_char_absent(tok, '-');
        assert(parse_port(tok) == Some(a));
        assert(range_set(a, a) =~= range_set(a, b));
    } else {
        assert(tok == da + seq!['-'] + db);
        assert forall|k: int| 0 <= k < tok.len() implies tok[k] != ',' by {
            if k < da.len() {
                assert(tok[k] == da[k]);
                assert(is_digit(da[k]));
            } else if k == da.len() {
                assert(tok[k] == '-');
            } else {
                assert(tok[k] == db[k - da.len() - 1]);
                assert(is_digit(db[k - da.len() - 1]));
            }
        }
        assert forall|k: int| 0 <= k < da.len() implies tok[k] != '-' by {
            assert(tok[k] == da[k]);
            assert(is_digit(da[k]));
        }
        assert(tok[da.len() as int] == '-');
        lemma_find_char_at(tok, '-', da.len() as int);
        assert(tok.take(da.len() as int) =~= da);
        assert(tok.skip(da.len() as int + 1) =~= db);
        assert(parse_port(da) == Some(a));
        assert(parse_port(db) == Some(b));
    }
}

/// A sequence's port membership splits into its head and its tail.
proof fn lemma_to_set_cons(s: Seq<u16>)
    requires
        s.len() > 0,
    ensures
        s.to_set() == s.skip(1).to_set().insert(s[0]),
{
    assert forall|q: u16| s.to_set().contains(q) implies s.skip(1).to_set().insert(
        s[0],
    ).contains(q) by {
        let j = choose|j: int| 0 <= j < s.len() && s[j] == q;
        if j > 0 {
            assert(s.skip(1)[j - 1] == q);
        }
    }
    assert forall|q: u16| s.skip(1).to_set().insert(s[0]).contains(q) implies s.to_set().contains(
        q,
    ) by {
        if q == s[0] {
            assert(s[0] == q);
        } else {
            let j = choose|j: int| 0 <= j < s.skip(1).len() && s.skip(1)[j] == q;
            assert(s[j + 1] == q);
        }
    }
    assert(s.to_set() =~= s.skip(1).to_set().insert(s[0]));
}

/// Coalescing a strictly sorted tail into runs covers exactly the
/// open run and the tail's ports, with every interval valid.
proof fn lemma_ivs_from_set(s: Seq<u16>, lo: u16, hi: u16)
    requires
        sorted_strict(s),
        lo <= hi,
        forall|k: int| 0 <= k < s.len() ==> s[k] > hi,
    ensures
        ivs_set(ivs_from(s, lo, hi)) == range_set(lo, hi).union(s.to_set()),
        ivs_from(s, lo, hi).len() >= 1,
        forall|j: int|
            0 <= j < ivs_from(s, lo, hi).len() ==> #[trigger] ivs_from(s, lo, hi)[j].0
                <= ivs_from(s, lo, hi)[j].1,
    decreases s.len(),
{
    if s.len() == 0 {
        let ivs = ivs_from(s, lo, hi);
        assert(ivs == seq![(lo, hi)]);
        assert(ivs.skip(1) =~= Seq::<(u16, u16)>::empty());
        assert(ivs_set(ivs) == range_set(lo, hi).union(ivs_set(ivs.skip(1))));
        assert(forall|q: u16| !s.to_set().contains(q));
        assert(ivs_set(ivs) =~= range_set(lo, hi).union(s.to_set()));
    } else {
        let tail = s.skip(1);
        assert(forall|i: int, j: int|
            0 <= i < j < tail.len() ==> tail[i] == s[i + 1] && tail[j] == s[j + 1]);
        assert(sorted_strict(tail));
        assert(forall|k: int| 0 <= k < tail.len() ==> tail[k] == s[k + 1] && tail[k] > s[0]);
        lemma_to_set_cons(s);
        if s[0] == hi + 1 {
            lemma_ivs_from_set(tail, lo, s[0]);
            assert(ivs_from(s, lo, hi) == ivs_from(tail, lo, s[0]));
            assert(range_set(lo, s[0]).union(tail.to_set()) =~= range_set(lo, hi).union(
                s.to_set(),
            ));
        } else {
            lemma_ivs_from_set(tail, s[0], s[0]);
            let rest = ivs_from(tail, s[0], s[0]);
            let ivs = ivs_from(s, lo, hi);
            assert(ivs == seq![(lo, hi)] + rest);
            assert(ivs[0] == (lo, hi));
            assert(ivs.skip(1) =~= rest);
            assert(ivs_set(ivs) == range_set(lo, hi).union(ivs_set(rest)));
            assert(range_set(lo, hi).union(range_set(s[0], s[0]).union(tail.to_set()))
                =~= range_set(lo, hi).union(s.to_set()));
            assert forall|j: int| 0 <= j < ivs.len() implies #[trigger] ivs[j].0 <= ivs[j].1 by {
                if j > 0 {
                    assert(ivs[j] == rest[j - 1]);
                }
            }
        }
    }
}

/// The maximal runs of a strictly sorted sequence cover exactly its
/// ports, with every interval valid.
pub proof fn lemma_ivs_of_set(s: Seq<u16>)
    requires
        sorted_strict(s),
    ensures
        ivs_set(ivs_of(s)) == s.to_set(),
        s.len() > 0 ==> ivs_of(s).len() >= 1,
        forall|j: int|
            0 <= j < ivs_of(s).len() ==> #[trigger] ivs_of(s)[j].0 <= ivs_of(s)[j].1,
    decreases s.len(),
{
    if s.len() == 0 {
        assert(forall|q: u16| !s.to_set().contains(q));
        assert(ivs_set(ivs_of(s)) =~= s.to_set());
    } else {
        let tail = s.skip(1);
        assert(forall|i: int, j: int|
            0 <= i < j < tail.len() ==> tail[i] == s[i + 1] && tail[j] == s[j + 1]);
        assert(sorted_strict(tail));
        assert(forall|k: int| 0 <= k < tail.len() ==> tail[k] == s[k + 1] && tail[k] > s[0]);
        lemma_ivs_from_set(tail, s[0], s[0]);
        lemma_to_set_cons(s);
        assert(range_set(s[0], s[0]).union(tail.to_set()) =~= s.to_set());
    }
}

/// Parsing the rendered text of the intervals from `k` on yields
/// exactly the ports those intervals cover.
proof fn lemma_parse_render_from(ivs: Seq<(u16, u16)>, k: int)
    requires
        forall|j: int| 0 <= j < ivs.len() ==> #[trigger] ivs[j].0 <= ivs[j].1,
        0 <= k < ivs.len(),
    ensures
        spec_parse_tokens(interval_text(ivs[k]) + render_from(ivs, k + 1))
            == ParseOutcome::Ports(ivs_set(ivs.skip(k))),
    decreases ivs.len() - k,
{
    let tok = interval_text(ivs[k]);
    lemma_interval_token(ivs[k].0, ivs[k].1);
    let s = tok + render_from(ivs, k + 1);
    assert(ivs.skip(k)[0] == ivs[k]);
    assert(ivs.skip(k).skip(1) =~= ivs.skip(k + 1));
    if k == ivs.len() - 1 {
        assert(render_from(ivs, k + 1) =~= Seq::<char>::empty());
        assert(s =~= tok);
        assert forall|j: int| 0 <= j < s.len() implies s[j] != ',' by {
            assert(s[j] == tok[j]);
        }
        lemma_find_char_absent(s, ',');
        assert(token_ports(s) == Some(range_set(ivs[k].0, ivs[k].1)));
        assert(ivs_set(ivs.skip(k)) =~= range_set(ivs[k].0, ivs[k].1).union(
            ivs_set(ivs.skip(k + 1)),
        ));
        assert(ivs.skip(k + 1) =~= Seq::<(u16, u16)>::empty());
        assert(ivs_set(ivs.skip(k)) =~= range_set(ivs[k].0, ivs[k].1));
    } else {
        let rest = interval_text(ivs[k + 1]) + render_from(ivs, k + 2);
        assert(render_from(ivs, k + 1) == seq![','] + interval_text(ivs[k + 1]) + render_from(
            ivs,
            k + 2,
        ));
        assert(s =~= tok + seq![','] + rest);
        assert forall|j: int| 0 <= j < tok.len() implies s[j] != ',' by {
            assert(s[j] == tok[j]);
        }
        assert(s[tok.len() as int] == ',');
        lemma_find_char_at(s, ',', tok.len() as int);
        assert(s.take(tok.len() as int) =~= tok);
        assert(s.skip(tok.len() as int + 1) =~= rest);
        lemma_parse_render_from(ivs, k + 1);
        assert(spec_parse_tokens(rest) == ParseOutcome::Ports(ivs_set(ivs.skip(k + 1))));
        assert(token_ports(tok) == Some(range_set(ivs[k].0, ivs[k].1)));
        assert(spec_parse_tokens(s) == ParseOutcome::Ports(
            range_set(ivs[k].0, ivs[k].1).union(ivs_set(ivs.skip(k + 1))),
        ));
        assert(ivs_set(ivs.skip(k)) == range_set(ivs[k].0, ivs[k].1).union(
            ivs_set(ivs.skip(k + 1)),
        ));
    }
}

/// Round trip: rendering any strictly sorted port sequence and
/// parsing the text back yields exactly the same set of ports.
pub proof fn lemma_parse_of_render(ports: Seq<u16>)
    requires
        sorted_strict(ports),
    ensures
        spec_parse(spec_render(ports)) == ParseOutcome::Ports(ports.to_set()),
{
    let ivs = ivs_of(ports);
    lemma_ivs_of_set(ports);
    if ports.len() == 0 {
        assert(ivs =~= Seq::<(u16, u16)>::empty());
        assert(spec_render(ports) =~= Seq::<char>::empty());
        assert(ports.to_set() =~= Set::<u16>::empty());
    } else {
        assert(ivs.len() >= 1);
        lemma_interval_token(ivs[0].0, ivs[0].1);
        let s = spec_render(ports);
        assert(s == Seq::<char>::empty() + interval_text(ivs[0]) + render_from(ivs, 1));
        assert(s =~= interval_text(ivs[0]) + render_from(ivs, 1));
        lemma_parse_render_from(ivs, 0);
        assert(s.len() >= interval_text(ivs[0]).len());
        assert(s.len() > 0);
        assert(ivs.skip(0) =~= ivs);
        assert(spec_parse(s) == ParseOutcome::Ports(ivs_set(ivs)));
    }
}

/// Two strictly sorted sequences with the same port membership are
/// the same sequence: the canonical form is unique.
pub proof fn lemma_sorted_strict_unique(s: Seq<u16>, t: Seq<u16>)
    requires
        sorted_strict(s),
        sorted_strict(t),
        s.to_set() == t.to_set(),
    ensures
        s == t,
    decreases s.len(),
{
    if s.len() == 0 {
        if t.len() > 0 {
            assert(t.to_set().contains(t[0]));
        }
        assert(s =~= t);
    } else {
        assert(s.to_set().contains(s[0]));
        if t.len() == 0 {
            assert(!t.to_set().contains(s[0]));
        }
        let j = choose|j: int| 0 <= j < t.len() && t[j] == s[0];
        assert(t[0] <= t[j]);
        assert(t.to_set().contains(t[0]));
        let i = choose|i: int| 0 <= i < s.len() && s[i] == t[0];
        assert(s[0] <= s[i]);
        assert(s[0] == t[0]);
        lemma_to_set_cons(s);
        lemma_to_set_cons(t);
        let st = s.skip(1);
        let tt = t.skip(1);
        assert(forall|i: int, j: int|
            0 <= i < j < st.len() ==> st[i] == s[i + 1] && st[j] == s[j + 1]);
        assert(sorted_strict(st));
        assert(forall|i: int, j: int|
            0 <= i < j < tt.len() ==> tt[i] == t[i + 1] && tt[j] == t[j + 1]);
        assert(sorted_strict(tt));
        assert(!st.to_set().contains(s[0])) by {
            if st.to_set().contains(s[0]) {
                let k = choose|k: int| 0 <= k < st.len() && st[k] == s[0];
                assert(s[k + 1] == s[0]);
                assert(s[0] < s[k + 1]);
            }
        }
        assert(!tt.to_set().contains(t[0])) by {
            if tt.to_set().contains(t[0]) {
                let k = choose|k: int| 0 <= k < tt.len() && tt[k] == t[0];
                assert(t[k + 1] == t[0]);
                assert(t[0] < t[k + 1]);
            }
        }
        assert(st.to_set() =~= s.to_set().remove(s[0]));
        assert(tt.to_set() =~= t.to_set().remove(t[0]));
        lemma_sorted_strict_unique(st, tt);
        assert(s =~= t) by {
            assert(s.len() == st.len() + 1);
            assert(t.len() == tt.len() + 1);
            assert forall|i: int| 0 <= i < s.len() implies s[i] == t[i] by {
                if i > 0 {
                    assert(st[i - 1] == tt[i - 1]);
                }
            }
        }
    }
}

/// Round trip: rendering a well-formed port set and parsing the
/// text back yields the very same port set. Whatever strictly
/// sorted sequence the parse produced, it is the one rendered.
pub proof fn lemma_round_trip(s: Seq<u16>, t: Seq<u16>)
    requires
        sorted_strict(s),
        sorted_strict(t),
        spec_parse(spec_render(s)) == ParseOutcome::Ports(t.to_set()),
    ensures
        t == s,
{
    lemma_parse_of_render(s);
    assert(t.to_set() == s.to_set());
    lemma_sorted_strict_unique(t, s);
}

/// Canonical form: when an expression parses to a set of ports, the
/// rendering of those ports parses to that same set, so rendering a
/// parse keeps the expression's port membership.
pub proof fn lemma_render_of_parse(e: Seq<char>, ports: Seq<u16>)
    requires
        sorted_strict(ports),
        spec_parse(e) == ParseOutcome::Ports(ports.to_set()),
    ensures
        spec_parse(spec_render(ports)) == spec_parse(e),
{
    lemma_parse_of_render(ports);
}

/// The digit character of a value below ten, as a string.
fn digit_str(d: u16) -> (r: &'static str)
    requires
        d < 10,
    ensures
        r@ == seq![digit_char(d as int)],
{
    if d == 0 {
        proof {
            reveal_strlit("0");
            assert("0"@ =~= seq![digit_char(0)]);
        }
        "0"
    } else if d == 1 {
        proof {
            reveal_strlit("1");
            assert("1"@ =~= seq![digit_char(1)]);
        }
        "1"
    } else if d == 2 {
        proof {
            reveal_strlit("2");
            assert("2"@ =~= seq![digit_char(2)]);
        }
        "2"
    } else if d == 3 {
        proof {
            reveal_strlit("3");
            assert("3"@ =~= seq![digit_char(3)]);
        }
        "3"
    } else if d == 4 {
        proof {
            reveal_strlit("4");
            assert("4"@ =~= seq![digit_char(4)]);
        }
        "4"
    } else if d == 5 {
        proof {
            reveal_strlit("5");
            assert("5"@ =~= seq![digit_char(5)]);
        }
        "5"
    } else if d == 6 {
        proof {
            reveal_strlit("6");
            assert("6"@ =~= seq![digit_char(6)]);
        }
        "6"
    } else if d == 7 {
        proof {
            reveal_strlit("7");
            assert("7"@ =~= seq![digit_char(7)]);
        }
        "7"
    } else if d == 8 {
        proof {
            reveal_strlit("8");
            assert("8"@ =~= seq![digit_char(8)]);
        }
        "8"
    } else {
        proof {
            reveal_strlit("9");
            assert("9"@ =~= seq![digit_char(9)]);
        }
        "9"
    }
}

/// Appends the decimal digits of `x` to `out`.
fn append_dec(out: &mut String, x: u16)
    ensures
        final(out)@ == old(out)@ + digits_of(x as int),
    decreases x,
{
    if x >= 10 {
        append_dec(out, x / 10);
        out.append(digit_str(x % 10));
        proof {
            assert(out@ =~= old(out)@ + digits_of(x as int));
        }
    } else {
        out.append(digit_str(x));
        proof {
            assert(out@ =~= old(out)@ + digits_of(x as int));
        }
    }
}

/// Appends one interval's text to `out`.
fn append_interval(out: &mut String, a: u16, b: u16)
    ensures
        final(out)@ == old(out)@ + interval_text((a, b)),
{
    append_dec(out, a);
    if a != b {
        proof {
            reveal_strlit("-");
        }
        out.append("-");
        append_dec(out, b);
        proof {
            assert(out@ =~= old(out)@ + interval_text((a, b)));
        }
    }
}

/// Error for a range expression that does not parse: carries the
/// first offending comma-separated token.
#[derive(Debug)]
pub struct MalformedRange {
    pub token: String,
}

impl MalformedRange {
    /// A human-readable description naming the bad token.
    pub fn message(&self) -> (r: String)
        ensures
            r@ == "malformed port range token: "@ + self.token@,
    {
        let mut s = String::new();
        s.append("malformed port range token: ");
        s.append(self.token.as_str());
        s
    }
}

/// Inserts `p` into a strictly sorted vector, keeping it strictly
/// sorted; a port already present is not duplicated.
fn insert_sorted(v: &mut Vec<u16>, p: u16)
    requires
        sorted_strict(old(v)@),
    ensures
        sorted_strict(final(v)@),
        final(v)@.to_set() == old(v)@.to_set().insert(p),
{
    let mut i: usize = 0;
    while i < v.len() && v[i] < p
        invariant
            0 <= i <= v.len(),
            forall|k: int| 0 <= k < i ==> v@[k] < p,
            sorted_strict(v@),
            v@ == old(v)@,
        decreases v.len() - i,
    {
        i += 1;
    }
    if i < v.len() && v[i] == p {
        proof {
            assert(v@.contains(p));
            assert(v@.to_set() =~= old(v)@.to_set().insert(p));
        }
        return;
    }
    let ghost s_old = v@;
    let ghost pos = i as int;
    proof {
        s_old.insert_ensures(pos, p);
    }
    v.insert(i, p);
    proof {
        let s_new = v@;
        assert forall|a: int, b: int| 0 <= a < b < s_new.len() implies s_new[a] < s_new[b] by {
            s_old.insert_ensures(pos, p);
            if b < pos {
            } else if a < pos && b == pos {
                assert(s_new[a] == s_old[a]);
            } else if a < pos {
                assert(s_new[b] == s_old[b - 1]);
                assert(s_old[a] < p);
                assert(p < s_old[pos]);
                assert(s_old[pos] <= s_old[b - 1]);
            } else if a == pos {
                assert(s_new[b] == s_old[b - 1]);
                assert(p < s_old[pos]);
            } else {
                assert(s_new[a] == s_old[a - 1]);
                assert(s_new[b] == s_old[b - 1]);
            }
        }
        assert forall|q: u16| s_new.to_set().contains(q) implies s_old.to_set().insert(p).contains(
            q,
        ) by {
            let j = choose|j: int| 0 <= j < s_new.len() && s_new[j] == q;
            s_old.insert_ensures(pos, p);
            if j < pos {
                assert(s_old[j] == q);
            } else if j > pos {
                assert(s_old[j - 1] == q);
            }
        }
        assert forall|q: u16| s_old.to_set().insert(p).contains(q) implies s_new.to_set().contains(
            q,
        ) by {
            s_old.insert_ensures(pos, p);
            if q == p {
                assert(s_new[pos] == q);
            } else {
                let j = choose|j: int| 0 <= j < s_old.len() && s_old[j] == q;
                if j < pos {
                    assert(s_new[j] == q);
                } else {
                    assert(s_new[j + 1] == q);
                }
            }
        }
        assert(s_new.to_set() =~= s_old.to_set().insert(p));
    }
}

/// Inserts every port of the inclusive range `a..=b` into a strictly
/// sorted vector; when `a > b` the range is empty and nothing is
/// inserted.
fn insert_range(v: &mut Vec<u16>, a: u16, b: u16)
    requires
        sorted_strict(old(v)@),
    ensures
        sorted_strict(final(v)@),
        final(v)@.to_set() == old(v)@.to_set().union(range_set(a, b)),
{
    let mut q: u32 = a as u32;
    proof {
        assert(v@.to_set() =~= old(v)@.to_set().union(
            Set::new(|p: u16| a <= p && (p as u32) < q),
        ));
    }
    while q <= b as u32
        invariant
            a as u32 <= q <= b as u32 + 1 || q == a as u32,
            sorted_strict(v@),
            v@.to_set() == old(v)@.to_set().union(
                Set::new(|p: u16| a <= p && (p as u32) < q),
            ),
        decreases b as u32 + 1 - q,
    {
        insert_sorted(v, q as u16);
        proof {
            assert(v@.to_set() =~= old(v)@.to_set().union(
                Set::new(|p: u16| a <= p && (p as u32) < q + 1),
            ));
        }
        q += 1;
    }
    proof {
        assert(v@.to_set() =~= old(v)@.to_set().union(range_set(a, b)));
    }
}

/// Parses a non-empty token list into `v`, mirroring
/// `spec_parse_tokens`: on success `v` gains exactly the denoted
/// ports, on failure `v` is left as some intermediate superset and
/// the first malformed token is returned.
fn parse_tokens_into(s: &str, v: &mut Vec<u16>) -> (r: Option<String>)
    requires
        sorted_strict(old(v)@),
    ensures
        sorted_strict(final(v)@),
        match r {
            None => {
                &&& spec_parse_tokens(s@) is Ports
                &&& final(v)@.to_set() == old(v)@.to_set().union(
                    spec_parse_tokens(s@)->Ports_0,
                )
            },
            Some(tok) => {
                &&& spec_parse_tokens(s@) is Malformed
                &&& tok@ == spec_parse_tokens(s@)->Malformed_0
            },
        },
    decreases s@.len(),
{
    proof {
        lemma_find_char(s@, ',');
    }
    let n = s.unicode_len();
    let i = find_char_in(s, ',');
    let tok = if i < n {
        s.substring_char(0, i)
    } else {
        s
    };
    proof {
        if i >= n {
            assert(s@.take(i as int) =~= s@);
        }
    }
    let j = find_char_in(tok, '-');
    let m = tok.unicode_len();
    let parsed: Option<(u16, u16)> = if j < m {
        proof {
            lemma_find_char(tok@, '-');
        }
        let lo = parse_port_str(tok.substring_char(0, j));
        let hi = parse_port_str(tok.substring_char(j + 1, m));
        match (lo, hi) {
            (Some(a), Some(b)) => Some((a, b)),
            _ => None,
        }
    } else {
        proof {
            assert(tok@.take(j as int) =~= tok@);
        }
        match parse_port_str(tok) {
            Some(p) => Some((p, p)),
            None => None,
        }
    };
    match parsed {
        None => Some(tok.to_owned()),
        Some((a, b)) => {
            assert(token_ports(tok@) == Some(range_set(a, b)));
            insert_range(v, a, b);
            if i < n {
                let rest = s.substring_char(i + 1, n);
                let r = parse_tokens_into(rest, v);
                proof {
                    if r is None {
                        assert(v@.to_set() =~= old(v)@.to_set().union(
                            spec_parse_tokens(s@)->Ports_0,
                        ));
                    }
                }
                r
            } else {
                None
            }
        },
    }
}

/// An ordered, deduplicated set of 16-bit port numbers.
///
/// The ports are kept strictly sorted, so a given set of ports has
/// exactly one representation.
#[derive(Debug, Clone)]
pub struct PortSet {
    ports: Vec<u16>,
}

impl View for PortSet {
    type V = Seq<u16>;

    closed spec fn view(&self) -> Seq<u16> {
        self.ports@
    }
}

impl PortSet {
    /// Well-formedness: the backing vector is strictly sorted.
    pub open spec fn wf(&self) -> bool {
        sorted_strict(self@)
    }

    /// The empty port set.
    pub fn new() -> (r: PortSet)
        ensures
            r.wf(),
            r@ == Seq::<u16>::empty(),
    {
        PortSet { ports: Vec::new() }
    }

    /// How many distinct ports the set holds.
    pub fn len(&self) -> (n: usize)
        ensures
            n == self@.len(),
    {
        self.ports.len()
    }

    /// The ports in ascending order.
    pub fn as_vec(&self) -> (v: &Vec<u16>)
        ensures
            v@ == self@,
    {
        &self.ports
    }

    /// Builds the set holding exactly the given ports, in canonical
    /// order, duplicates collapsed.
    pub fn from_ports(ports: &Vec<u16>) -> (r: PortSet)
        ensures
            r.wf(),
            r@.to_set() == ports@.to_set(),
    {
        let mut v: Vec<u16> = Vec::new();
        let ghost all = ports@;
        let mut i: usize = 0;
        while i < ports.len()
            invariant
                0 <= i <= ports.len(),
                ports@ == all,
                sorted_strict(v@),
                v@.to_set() == all.take(i as int).to_set(),
            decreases ports.len() - i,
        {
            insert_sorted(&mut v, ports[i]);
            proof {
                let pre = all.take(i as int);
                let post = all.take(i + 1);
                assert(post.drop_last() =~= pre);
                assert(post.last() == all[i as int]);
                assert forall|q: u16| post.to_set().contains(q) implies pre.to_set().insert(
                    all[i as int],
                ).contains(q) by {
                    let j = choose|j: int| 0 <= j < post.len() && post[j] == q;
                    if j < i {
                        assert(pre[j] == q);
                    }
                }
                assert forall|q: u16| pre.to_set().insert(all[i as int]).contains(q) implies post
                    .to_set().contains(q) by {
                    if q == all[i as int] {
                        assert(post[i as int] == q);
                    } else {
                        let j = choose|j: int| 0 <= j < pre.len() && pre[j] == q;
                        assert(post[j] == q);
                    }
                }
                assert(post.to_set() =~= pre.to_set().insert(all[i as int]));
            }
            i += 1;
        }
        proof {
            assert(all.take(ports@.len() as int) =~= all);
        }
        PortSet { ports: v }
    }

    /// Parses a textual range expression into a port set.
    ///
    /// The grammar is a comma-separated list of tokens, each a bare
    /// decimal port or an inclusive `start-end` range; an empty
    /// string denotes the empty set, and a range whose start exceeds
    /// its end denotes no ports. The result holds exactly the ports
    /// the expression denotes; a malformed token makes the whole
    /// parse fail with that token, and nothing panics.
    pub fn parse_ports(s: &str) -> (r: Result<PortSet, MalformedRange>)
        ensures
            match r {
                Ok(ps) => {
                    &&& ps.wf()
                    &&& spec_parse(s@) is Ports
                    &&& ps@.to_set() == spec_parse(s@)->Ports_0
                },
                Err(e) => {
                    &&& spec_parse(s@) is Malformed
                    &&& e.token@ == spec_parse(s@)->Malformed_0
                },
            },
    {
        let n = s.unicode_len();
        if n == 0 {
            let r = PortSet::new();
            proof {
                assert(r@.to_set() =~= Set::<u16>::empty());
            }
            return Ok(r);
        }
        let mut v: Vec<u16> = Vec::new();
        match parse_tokens_into(s, &mut v) {
            None => {
                proof {
                    assert(v@.to_set() =~= spec_parse_tokens(s@)->Ports_0);
                }
                Ok(PortSet { ports: v })
            },
            Some(token) => Err(MalformedRange { token }),
        }
    }

    /// The maximal runs of consecutive ports, as closed intervals in
    /// ascending order.
    fn to_intervals(&self) -> (ivs: Vec<(u16, u16)>)
        requires
            self.wf(),
        ensures
            ivs@ == ivs_of(self@),
    {
        let mut ivs: Vec<(u16, u16)> = Vec::new();
        let n = self.ports.len();
        if n == 0 {
            proof {
                assert(ivs@ =~= ivs_of(self@));
            }
            return ivs;
        }
        let mut lo = self.ports[0];
        let mut hi = lo;
        let mut i: usize = 1;
        proof {
            assert(ivs@ + ivs_from(self@.skip(1), lo, hi) =~= ivs_of(self@));
        }
        while i < n
            invariant
                1 <= i <= n,
                n == self@.len(),
                self.wf(),
                lo <= hi,
                hi == self@[i - 1],
                ivs_of(self@) == ivs@ + ivs_from(self@.skip(i as int), lo, hi),
            decreases n - i,
        {
            let p = self.ports[i];
            proof {
                assert(self@.skip(i as int)[0] == p);
                assert(self@.skip(i as int).skip(1) =~= self@.skip(i + 1));
            }
            if hi as u32 + 1 == p as u32 {
                hi = p;
            } else {
                let ghost done = ivs@;
                ivs.push((lo, hi));
                proof {
                    assert(ivs@ =~= done + seq![(lo, hi)]);
                    assert(done + (seq![(lo, hi)] + ivs_from(self@.skip(i + 1), p, p)) =~= (done
                        + seq![(lo, hi)]) + ivs_from(self@.skip(i + 1), p, p));
                }
                lo = p;
                hi = p;
            }
            i += 1;
        }
        proof {
            assert(self@.skip(n as int) =~= Seq::<u16>::empty());
        }
        let ghost done = ivs@;
        ivs.push((lo, hi));
        proof {
            assert(ivs@ =~= done + seq![(lo, hi)]);
        }
        ivs
    }

    /// Renders the set into the compact textual form the parser
    /// accepts: maximal runs of consecutive ports, each a bare
    /// number or a `start-end` range, joined by commas, in
    /// ascending order. A pure function of the set.
    pub fn render(&self) -> (r: String)
        requires
            self.wf(),
        ensures
            r@ == spec_render(self@),
    {
        let ivs = self.to_intervals();
        let mut out = String::new();
        let mut k: usize = 0;
        while k < ivs.len()
            invariant
                0 <= k <= ivs@.len(),
                ivs@ == ivs_of(self@),
                out@ + render_from(ivs@, k as int) == render_from(ivs@, 0),
            decreases ivs@.len() - k,
        {
            let ghost pre = out@;
            if k > 0 {
                proof {
                    reveal_strlit(",");
                }
                out.append(",");
            }
            let iv = ivs[k];
            append_interval(&mut out, iv.0, iv.1);
            proof {
                if k > 0 {
                    assert(out@ =~= pre + (seq![','] + interval_text(ivs@[k as int])));
                    assert(pre + (seq![','] + interval_text(ivs@[k as int])) + render_from(
                        ivs@,
                        k + 1,
                    ) =~= pre + render_from(ivs@, k as int));
                } else {
                    assert(out@ =~= pre + (Seq::<char>::empty() + interval_text(ivs@[k as int])));
                    assert(pre + (Seq::<char>::empty() + interval_text(ivs@[k as int]))
                        + render_from(ivs@, k + 1) =~= pre + render_from(ivs@, k as int));
                }
            }
            k += 1;
        }
        proof {
            assert(out@ + render_from(ivs@, ivs@.len() as int) =~= out@);
        }
        out
    }

    /// Whether `p` is in the set.
    pub fn contains(&self, p: u16) -> (r: bool)
        ensures
            r == self@.contains(p),
    {
        let mut i: usize = 0;
        while i < self.ports.len()
            invariant
                0 <= i <= self.ports.len(),
                forall|k: int| 0 <= k < i ==> self.ports@[k] != p,
            decreases self.ports.len() - i,
        {
            if self.ports[i] == p {
                return true;
            }
            i += 1;
        }
        false
    }
}

} // verus!
