//! Amounts as text: digit grouping with underscores, and SOL amounts to lamports.
use vstd::prelude::*;
use crate::pack::is_space;
use crate::params::lemma_digits_prefix_le;
use crate::text::{all_digits, chars_of, digit_value, digits_value, i128_text, is_digit, join_text, signed_decimal, string_of};

verus! {

/// `s` without its leading white space.
pub open spec fn trim_start(s: Seq<char>) -> Seq<char>
    decreases s.len(),
{
    if s.len() > 0 && is_space(s[0]) {
        trim_start(s.drop_first())
    } else {
        s
    }
}

/// `s` without its trailing white space.
pub open spec fn trim_end(s: Seq<char>) -> Seq<char>
    decreases s.len(),
{
    if s.len() > 0 && is_space(s.last()) {
        trim_end(s.drop_last())
    } else {
        s
    }
}

pub open spec fn trim(s: Seq<char>) -> Seq<char> {
    trim_end(trim_start(s))
}

/// `s` without its underscores.
pub open spec fn without_underscores(s: Seq<char>) -> Seq<char>
    decreases s.len(),
{
    if s.len() == 0 {
        s
    } else if s.last() == '_' {
        without_underscores(s.drop_last())
    } else {
        without_underscores(s.drop_last()).push(s.last())
    }
}

/// `s` in groups of three characters from the right, joined by underscores.
pub open spec fn grouped(s: Seq<char>) -> Seq<char>
    decreases s.len(),
{
    if s.len() <= 3 {
        s
    } else {
        grouped(s.subrange(0, s.len() - 3)) + seq!['_'] + s.subrange(s.len() - 3, s.len() as int)
    }
}

/// The index of the first `c` in `s`.
pub open spec fn first_index(s: Seq<char>, c: char) -> Option<nat>
    decreases s.len(),
{
    if s.len() == 0 {
        None
    } else if s[0] == c {
        Some(0)
    } else {
        match first_index(s.drop_first(), c) {
            Some(i) => Some(i + 1),
            None => None,
        }
    }
}

proof fn lemma_first_index_bound(s: Seq<char>, c: char)
    ensures
        first_index(s, c) matches Some(k) ==> k < s.len() && s[k as int] == c,
    decreases s.len(),
{
    if s.len() > 0 && s[0] != c {
        lemma_first_index_bound(s.drop_first(), c);
    }
}

/// An amount written with its digits grouped by three: the text trimmed, a leading
/// `-` kept, underscores removed, and the whole and fractional parts (split at the
/// first `.`) grouped from the right.
pub open spec fn formatted(input: Seq<char>) -> Seq<char> {
    let t = trim(input);
    if t.len() == 0 {
        Seq::empty()
    } else {
        let negative = t[0] == '-';
        let sign = if negative {
            seq!['-']
        } else {
            Seq::<char>::empty()
        };
        let raw = without_underscores(
            if negative {
                t.drop_first()
            } else {
                t
            },
        );
        match first_index(raw, '.') {
            Some(k) => sign + grouped(raw.take(k as int)) + seq!['.'] + grouped(raw.skip((k + 1) as int)),
            None => sign + grouped(raw),
        }
    }
}

/// A value that has a text form to group.
pub trait AmountText {
    spec fn amount_view(&self) -> Seq<char>;

    fn amount_text(&self) -> (r: String)
        ensures
            r@ == self.amount_view(),
    ;
}

impl AmountText for i32 {
    open spec fn amount_view(&self) -> Seq<char> {
        signed_decimal(*self as int)
    }

    fn amount_text(&self) -> (r: String) {
        i128_text(*self as i128)
    }
}

impl AmountText for i64 {
    open spec fn amount_view(&self) -> Seq<char> {
        signed_decimal(*self as int)
    }

    fn amount_text(&self) -> (r: String) {
        i128_text(*self as i128)
    }
}

impl AmountText for i128 {
    open spec fn amount_view(&self) -> Seq<char> {
        signed_decimal(*self as int)
    }

    fn amount_text(&self) -> (r: String) {
        i128_text(*self)
    }
}

impl AmountText for u64 {
    open spec fn amount_view(&self) -> Seq<char> {
        signed_decimal(*self as int)
    }

    fn amount_text(&self) -> (r: String) {
        i128_text(*self as i128)
    }
}

impl AmountText for String {
    open spec fn amount_view(&self) -> Seq<char> {
        self@
    }

    fn amount_text(&self) -> (r: String) {
        self.clone()
    }
}

impl<'a> AmountText for &'a str {
    open spec fn amount_view(&self) -> Seq<char> {
        (*self)@
    }

    fn amount_text(&self) -> (r: String) {
        string_of(&chars_of(*self))
    }
}

/// Whether `c` is white space.
fn space(c: char) -> (r: bool)
    ensures
        r == is_space(c),
{
    ('\u{9}' <= c && c <= '\u{d}') || c == ' ' || c == '\u{85}' || c == '\u{a0}' || c == '\u{1680}'
        || ('\u{2000}' <= c && c <= '\u{200a}') || c == '\u{2028}' || c == '\u{2029}' || c
        == '\u{202f}' || c == '\u{205f}' || c == '\u{3000}'
}

proof fn lemma_trim_start_skip(s: Seq<char>, i: int)
    requires
        0 <= i <= s.len(),
        forall|j: int| 0 <= j < i ==> is_space(#[trigger] s[j]),
    ensures
        trim_start(s) == trim_start(s.skip(i)),
    decreases i,
{
    if i > 0 {
        lemma_trim_start_skip(s.drop_first(), i - 1);
        assert(s.drop_first().skip(i - 1) =~= s.skip(i));
    } else {
        assert(s.skip(0) =~= s);
    }
}

proof fn lemma_trim_end_take(s: Seq<char>, j: int)
    requires
        0 <= j <= s.len(),
        forall|k: int| j <= k < s.len() ==> is_space(#[trigger] s[k]),
    ensures
        trim_end(s) == trim_end(s.take(j)),
    decreases s.len() - j,
{
    if j < s.len() {
        lemma_trim_end_take(s.drop_last(), j);
        assert(s.drop_last().take(j) =~= s.take(j));
    } else {
        assert(s.take(j) =~= s);
    }
}

/// The characters of `s` without leading and trailing white space.
fn trimmed_chars(s: &str) -> (r: Vec<char>)
    ensures
        r@ == trim(s@),
{
    let cs = chars_of(s);
    let n = cs.len();
    let mut i: usize = 0;
    while i < n && space(cs[i])
        invariant
            cs@ == s@,
            n == cs@.len(),
            i <= n,
            forall|j: int| 0 <= j < i ==> is_space(#[trigger] cs@[j]),
        decreases n - i,
    {
        i = i + 1;
    }
    proof {
        lemma_trim_start_skip(s@, i as int);
    }
    let mut j: usize = n;
    while j > i && space(cs[j - 1])
        invariant
            cs@ == s@,
            n == cs@.len(),
            i <= j <= n,
            forall|k: int| j <= k < n ==> is_space(#[trigger] cs@[k]),
        decreases j,
    {
        j = j - 1;
    }
    let ghost rest = s@.skip(i as int);
    proof {
        assert(i < n ==> !is_space(rest[0]));
        assert(trim_start(rest) == rest);
        lemma_trim_end_take(rest, (j - i) as int);
        if j > i {
            assert(rest.take((j - i) as int).last() == cs@[j - 1]);
        }
        assert(trim_end(rest.take((j - i) as int)) == rest.take((j - i) as int));
    }
    let mut out: Vec<char> = Vec::new();
    let mut k: usize = i;
    while k < j
        invariant
            cs@ == s@,
            i <= k <= j <= n,
            n == cs@.len(),
            out@ == cs@.subrange(i as int, k as int),
        decreases j - k,
    {
        out.push(cs[k]);
        assert(cs@.subrange(i as int, k + 1) =~= cs@.subrange(i as int, k as int).push(cs@[k as int]));
        k = k + 1;
    }
    assert(out@ =~= rest.take((j - i) as int));
    out
}

/// The characters of `cs[from..]` without underscores.
fn strip_underscores(cs: &Vec<char>, from: usize) -> (r: Vec<char>)
    requires
        from <= cs@.len(),
    ensures
        r@ == without_underscores(cs@.skip(from as int)),
{
    let mut out: Vec<char> = Vec::new();
    let mut k: usize = from;
    assert(cs@.subrange(from as int, from as int) =~= Seq::<char>::empty());
    while k < cs.len()
        invariant
            from <= k <= cs@.len(),
            out@ == without_underscores(cs@.subrange(from as int, k as int)),
        decreases cs@.len() - k,
    {
        let ghost q = cs@.subrange(from as int, k + 1);
        assert(q.drop_last() =~= cs@.subrange(from as int, k as int));
        if cs[k] != '_' {
            out.push(cs[k]);
        }
        k = k + 1;
    }
    assert(cs@.subrange(from as int, k as int) =~= cs@.skip(from as int));
    out
}

/// `cs[0..end]` in groups of three from the right, joined by underscores.
fn group_range(cs: &Vec<char>, from: usize, end: usize) -> (r: Vec<char>)
    requires
        from <= end <= cs@.len(),
    ensures
        r@ == grouped(cs@.subrange(from as int, end as int)),
    decreases end - from,
{
    let ghost s = cs@.subrange(from as int, end as int);
    if end - from <= 3 {
        let mut out: Vec<char> = Vec::new();
        let mut k: usize = from;
        while k < end
            invariant
                from <= k <= end <= cs@.len(),
                out@ == cs@.subrange(from as int, k as int),
            decreases end - k,
        {
            out.push(cs[k]);
            assert(cs@.subrange(from as int, k + 1) =~= cs@.subrange(from as int, k as int).push(
                cs@[k as int],
            ));
            k = k + 1;
        }
        out
    } else {
        let mut out = group_range(cs, from, end - 3);
        out.push('_');
        out.push(cs[end - 3]);
        out.push(cs[end - 2]);
        out.push(cs[end - 1]);
        assert(s.subrange(0, s.len() - 3) =~= cs@.subrange(from as int, end - 3));
        assert(out@ =~= grouped(s.subrange(0, s.len() - 3)) + seq!['_'] + s.subrange(
            s.len() - 3,
            s.len() as int,
        ));
        out
    }
}

/// `s` without its underscores.
pub fn remove_underscores(s: &str) -> (r: String)
    ensures
        r@ == without_underscores(s@),
{
    let cs = chars_of(s);
    let out = strip_underscores(&cs, 0);
    assert(cs@.skip(0) =~= cs@);
    string_of(&out)
}

/// `s` in groups of three characters from the right, joined by underscores.
pub fn add_underscores(s: &str) -> (r: String)
    ensures
        r@ == grouped(s@),
{
    let cs = chars_of(s);
    let out = group_range(&cs, 0, cs.len());
    assert(cs@.subrange(0, cs@.len() as int) =~= cs@);
    string_of(&out)
}

/// An amount's text with its digits grouped by three.
pub fn format_amount_str(input: &str) -> (r: String)
    ensures
        r@ == formatted(input@),
{
    let t = trimmed_chars(input);
    if t.len() == 0 {
        return String::new();
    }
    let negative = t[0] == '-';
    let from: usize = if negative {
        1
    } else {
        0
    };
    let sign = if negative {
        string_of(&vec!['-'])
    } else {
        String::new()
    };
    let body = crate::text::string_of_range(&t, from, t.len());
    let raw = remove_underscores(body.as_str());
    proof {
        if negative {
            assert(t@.subrange(1, t@.len() as int) =~= t@.drop_first());
        } else {
            assert(t@.subrange(0, t@.len() as int) =~= t@);
        }
        assert(sign@ =~= if negative {
            seq!['-']
        } else {
            Seq::<char>::empty()
        });
    }
    let rc = chars_of(raw.as_str());
    let dot = find_point(&rc, 0);
    assert(rc@.skip(0) =~= rc@);
    proof {
        lemma_first_index_bound(rc@, '.');
    }
    if dot < rc.len() {
        let whole = add_underscores(crate::text::string_of_range(&rc, 0, dot).as_str());
        let frac = add_underscores(crate::text::string_of_range(&rc, dot + 1, rc.len()).as_str());
        assert(rc@.subrange(0, dot as int) =~= rc@.take(dot as int));
        assert(rc@.subrange(dot + 1, rc@.len() as int) =~= rc@.skip(dot + 1));
        let head = join_text(sign.as_str(), whole.as_str());
        let with_point = join_text(head.as_str(), ".");
        proof {
            reveal_strlit(".");
            assert("."@ =~= seq!['.']);
        }
        join_text(with_point.as_str(), frac.as_str())
    } else {
        let all = add_underscores(raw.as_str());
        join_text(sign.as_str(), all.as_str())
    }
}

/// A value's text with its digits grouped by three (`12_345`, `-987_654`,
/// `1_234_567.8_901`).
pub fn format_amount<T: AmountText>(value: T) -> (r: String)
    ensures
        r@ == formatted(value.amount_view()),
{
    let text = value.amount_text();
    format_amount_str(text.as_str())
}

/// Why a text is not an amount of SOL.
#[derive(Clone, Copy, Debug, PartialEq, Eq, Structural)]
pub enum AmountError {
    /// Nothing but white space and underscores.
    Empty,
    /// A leading minus sign.
    Negative,
    /// More than one decimal point.
    TooManyPoints,
    /// A character other than a digit in the whole or the fractional part.
    NotANumber,
    /// More than nine decimal places, finer than one lamport.
    TooManyDecimals,
    /// More lamports than a `u64` holds.
    TooLarge,
}

pub open spec fn pow10(n: nat) -> nat
    decreases n,
{
    if n == 0 {
        1
    } else {
        10 * pow10((n - 1) as nat)
    }
}

/// The fractional digits padded with zeros to nine places.
pub open spec fn padded_fraction(frac: Seq<char>) -> Seq<char> {
    frac + Seq::new((9 - frac.len()) as nat, |i: int| '0')
}

/// The whole and fractional digit texts of an amount, split at its decimal point.
pub open spec fn amount_parts(c: Seq<char>) -> Result<(Seq<char>, Seq<char>), AmountError> {
    match first_index(c, '.') {
        None => Ok((c, Seq::empty())),
        Some(k) => if first_index(c.skip((k + 1) as int), '.') is Some {
            Err(AmountError::TooManyPoints)
        } else {
            Ok((c.take(k as int), c.skip((k + 1) as int)))
        },
    }
}

/// The lamports that a text of SOL stands for: white space trimmed, underscores
/// removed, up to nine decimal places.
pub open spec fn lamports_of(input: Seq<char>) -> Result<u64, AmountError> {
    let c = without_underscores(trim(input));
    if c.len() == 0 {
        Err(AmountError::Empty)
    } else if c[0] == '-' {
        Err(AmountError::Negative)
    } else {
        match amount_parts(c) {
            Err(e) => Err(e),
            Ok((whole, frac)) => if !all_digits(whole) || !all_digits(frac) {
                Err(AmountError::NotANumber)
            } else if frac.len() > 9 {
                Err(AmountError::TooManyDecimals)
            } else {
                let v = digits_value(whole) * 1_000_000_000 + digits_value(padded_fraction(frac));
                if v <= u64::MAX {
                    Ok(v as u64)
                } else {
                    Err(AmountError::TooLarge)
                }
            },
        }
    }
}

proof fn lemma_digits_bound(s: Seq<char>)
    requires
        all_digits(s),
    ensures
        digits_value(s) < pow10(s.len()),
    decreases s.len(),
{
    if s.len() > 0 {
        lemma_digits_bound(s.drop_last());
        let a = digits_value(s.drop_last());
        let d = digit_value(s.last());
        assert(is_digit(s[s.len() - 1]));
        assert(d < 10);
        assert(a * 10 + d < 10 * pow10((s.len() - 1) as nat)) by (nonlinear_arith)
            requires
                a < pow10((s.len() - 1) as nat),
                d < 10,
        ;
    }
}

/// The number that the digits `cs[from..to]` denote, or `None` past `u64::MAX`.
fn digits_u64(cs: &Vec<char>, from: usize, to: usize) -> (r: Option<u64>)
    requires
        from <= to <= cs@.len(),
        all_digits(cs@.subrange(from as int, to as int)),
    ensures
        match r {
            Some(n) => n as nat == digits_value(cs@.subrange(from as int, to as int)),
            None => digits_value(cs@.subrange(from as int, to as int)) > u64::MAX,
        },
{
    let ghost s = cs@.subrange(from as int, to as int);
    let mut acc: u64 = 0;
    let mut i: usize = from;
    assert(s.subrange(0, 0) =~= Seq::<char>::empty());
    while i < to
        invariant
            from <= i <= to <= cs@.len(),
            s == cs@.subrange(from as int, to as int),
            all_digits(s),
            acc as nat == digits_value(s.subrange(0, i - from)),
        decreases to - i,
    {
        let ghost p = s.subrange(0, i - from + 1);
        assert(p.drop_last() =~= s.subrange(0, i - from));
        assert(p.last() == cs@[i as int]);
        assert(is_digit(s[i - from]));
        let d = (cs[i] as u32 - '0' as u32) as u64;
        match acc.checked_mul(10) {
            Some(m) => match m.checked_add(d) {
                Some(a) => {
                    acc = a;
                },
                None => {
                    proof {
                        lemma_digits_prefix_le(s, i - from + 1);
                    }
                    return None;
                },
            },
            None => {
                proof {
                    lemma_digits_prefix_le(s, i - from + 1);
                }
                return None;
            },
        }
        i = i + 1;
    }
    assert(s.subrange(0, to - from) =~= s);
    Some(acc)
}

/// Whether `cs[from..to]` holds only digits.
fn only_digits(cs: &Vec<char>, from: usize, to: usize) -> (r: bool)
    requires
        from <= to <= cs@.len(),
    ensures
        r == all_digits(cs@.subrange(from as int, to as int)),
{
    let mut i: usize = from;
    while i < to
        invariant
            from <= i <= to <= cs@.len(),
            forall|k: int| from <= k < i ==> is_digit(#[trigger] cs@[k]),
        decreases to - i,
    {
        if cs[i] < '0' || cs[i] > '9' {
            assert(!is_digit(cs@.subrange(from as int, to as int)[i - from]));
            return false;
        }
        i = i + 1;
    }
    assert forall|k: int| 0 <= k < to - from implies is_digit(
        #[trigger] cs@.subrange(from as int, to as int)[k],
    ) by {
        assert(cs@.subrange(from as int, to as int)[k] == cs@[from + k]);
    }
    true
}

/// The index of the first `.` in `cs[from..]`, or `cs.len()`.
fn find_point(cs: &Vec<char>, from: usize) -> (r: usize)
    requires
        from <= cs@.len(),
    ensures
        from <= r <= cs@.len(),
        match first_index(cs@.skip(from as int), '.') {
            Some(k) => r == from + k,
            None => r == cs@.len(),
        },
{
    let mut i: usize = from;
    assert(cs@.skip(from as int) =~= cs@.skip(from as int).skip(0));
    while i < cs.len() && cs[i] != '.'
        invariant
            from <= i <= cs@.len(),
            first_index(cs@.skip(from as int), '.') == match first_index(cs@.skip(i as int), '.') {
                Some(k) => Some((k + i - from) as nat),
                None => None::<nat>,
            },
        decreases cs@.len() - i,
    {
        assert(cs@.skip(i as int).drop_first() =~= cs@.skip(i + 1));
        i = i + 1;
    }
    if i < cs.len() {
        assert(cs@.skip(i as int)[0] == '.');
    } else {
        assert(cs@.skip(i as int) =~= Seq::<char>::empty());
    }
    i
}

/// The lamports in a text of SOL: `1.5` is 1_500_000_000 lamports.
pub fn parse_sol_to_lamports(input: &str) -> (r: Result<u64, AmountError>)
    ensures
        r == lamports_of(input@),
{
    let t = trimmed_chars(input);
    let c = strip_underscores(&t, 0);
    assert(t@.skip(0) =~= t@);
    let n = c.len();
    if n == 0 {
        return Err(AmountError::Empty);
    }
    if c[0] == '-' {
        return Err(AmountError::Negative);
    }
    let p = find_point(&c, 0);
    assert(c@.skip(0) =~= c@);
    let q = if p < n {
        find_point(&c, p + 1)
    } else {
        n
    };
    if p < n && q < n {
        return Err(AmountError::TooManyPoints);
    }
    let whole_end = p;
    let frac_start = if p < n {
        p + 1
    } else {
        n
    };
    let ghost whole = c@.subrange(0, whole_end as int);
    let ghost frac = c@.subrange(frac_start as int, n as int);
    proof {
        if p < n {
            assert(first_index(c@, '.') == Some(p as nat));
            lemma_first_index_bound(c@.skip(p + 1), '.');
            assert(first_index(c@.skip(p + 1), '.') is None);
            assert(whole =~= c@.take(p as int));
            assert(frac =~= c@.skip(p + 1));
        } else {
            lemma_first_index_bound(c@, '.');
            assert(first_index(c@, '.') is None);
            assert(whole =~= c@);
            assert(frac =~= Seq::<char>::empty());
        }
        assert(amount_parts(c@) == Ok::<(Seq<char>, Seq<char>), AmountError>((whole, frac)));
    }
    if !only_digits(&c, 0, whole_end) || !only_digits(&c, frac_start, n) {
        return Err(AmountError::NotANumber);
    }
    if n - frac_start > 9 {
        return Err(AmountError::TooManyDecimals);
    }
    let mut padded: Vec<char> = Vec::new();
    let mut k: usize = frac_start;
    while k < n
        invariant
            frac_start <= k <= n,
            n == c@.len(),
            padded@ == c@.subrange(frac_start as int, k as int),
        decreases n - k,
    {
        padded.push(c[k]);
        assert(c@.subrange(frac_start as int, k + 1) =~= c@.subrange(frac_start as int, k as int).push(c@[k as int]));
        k = k + 1;
    }
    while padded.len() < 9
        invariant
            padded@.len() <= 9,
            frac.len() <= 9,
            padded@.len() >= frac.len(),
            padded@ =~= frac + Seq::new((padded@.len() - frac.len()) as nat, |i: int| '0'),
        decreases 9 - padded@.len(),
    {
        padded.push('0');
    }
    proof {
        assert(padded@ =~= padded_fraction(frac));
        assert(all_digits(padded@));
        assert(padded@.subrange(0, 9) =~= padded@);
        lemma_digits_bound(padded@);
        reveal_with_fuel(pow10, 10);
    }
    let fraction = match digits_u64(&padded, 0, 9) {
        Some(f) => f,
        None => {
            return Err(AmountError::TooLarge);
        },
    };
    let whole_value = match digits_u64(&c, 0, whole_end) {
        Some(w) => w,
        None => {
            return Err(AmountError::TooLarge);
        },
    };
    match whole_value.checked_mul(1_000_000_000) {
        Some(m) => match m.checked_add(fraction) {
            Some(v) => Ok(v),
            None => Err(AmountError::TooLarge),
        },
        None => Err(AmountError::TooLarge),
    }
}

} // verus!
