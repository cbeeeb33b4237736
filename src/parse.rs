use vstd::prelude::*;

verus! {

/// What went wrong while reading a bracketed list of numbers.
#[derive(Debug, Clone, Copy, PartialEq, Eq)]
pub enum ArrParseErrorKind {
    /// The text opens with something other than `[`, a space, `,` or `]`.
    MissingStart,
    /// No `]` closes the list.
    MissingEnd,
    /// A field is not a decimal number that fits in `usize`.
    InvalidNumber,
}

/// The sentence that describes an error of kind `kind`.
pub open spec fn array_error_text(kind: ArrParseErrorKind) -> &'static str {
    match kind {
        ArrParseErrorKind::MissingStart => "Expecting [ at the start of array",
        ArrParseErrorKind::MissingEnd => "Expecting ] at the end of array",
        ArrParseErrorKind::InvalidNumber => "Expecting a decimal number between separators",
    }
}

/// The error returned by [`parse_array`].
#[derive(Debug, Clone, Copy)]
pub struct ArrParseError {
    pub kind: ArrParseErrorKind,
}

impl ArrParseError {
    /// A sentence that describes the error.
    pub fn message(&self) -> (r: String)
        ensures
            r@ == array_error_text(self.kind)@,
    {
        match self.kind {
            ArrParseErrorKind::MissingStart => String::from_str("Expecting [ at the start of array"),
            ArrParseErrorKind::MissingEnd => String::from_str("Expecting ] at the end of array"),
            ArrParseErrorKind::InvalidNumber => String::from_str(
                "Expecting a decimal number between separators",
            ),
        }
    }
}

pub open spec fn is_decimal_digit(c: char) -> bool {
    '0' <= c <= '9'
}

pub open spec fn digit_value(c: char) -> nat {
    ((c as int) - ('0' as int)) as nat
}

/// The number that a sequence of decimal digits writes, most significant first.
pub open spec fn digits_value(d: Seq<char>) -> nat
    decreases d.len(),
{
    if d.len() == 0 {
        0
    } else {
        digits_value(d.drop_last()) * 10 + digit_value(d.last())
    }
}

/// Whether every character of `d` is a decimal digit.
pub open spec fn all_decimal(d: Seq<char>) -> bool {
    forall|i: int| 0 <= i < d.len() ==> is_decimal_digit(#[trigger] d[i])
}

/// Whether some field of `fields` is not a number.
pub open spec fn some_field_invalid(fields: Seq<Seq<char>>) -> bool {
    exists|k: int| 0 <= k < fields.len() && #[trigger] field_value(fields[k]) is None
}

/// A field without its leading `+`, if it has one.
pub open spec fn unsigned_digits(f: Seq<char>) -> Seq<char> {
    if f.len() > 0 && f[0] == '+' {
        f.drop_first()
    } else {
        f
    }
}

/// The number that a field stands for: one or more decimal digits after an
/// optional `+`, whose value fits in `usize`.
pub open spec fn field_value(f: Seq<char>) -> Option<usize> {
    let d = unsigned_digits(f);
    if d.len() > 0 && all_decimal(d) && digits_value(d) <= usize::MAX {
        Some(digits_value(d) as usize)
    } else {
        None
    }
}

/// The number of a field that is known to be valid.
pub open spec fn field_number(f: Seq<char>) -> usize {
    match field_value(f) {
        Some(v) => v,
        None => 0,
    }
}

/// Whether `c` may open the text of a list: `[`, a space, or a separator.
pub open spec fn may_open_list(c: char) -> bool {
    c == '[' || c == ' ' || c == ',' || c == ']'
}

/// The position of the first `]` in `s`, or `s.len()` when there is none.
pub open spec fn close_index(s: Seq<char>) -> int
    decreases s.len(),
{
    if s.len() == 0 {
        0
    } else {
        let c = close_index(s.drop_last());
        if c < s.len() - 1 {
            c
        } else if s.last() == ']' {
            s.len() - 1
        } else {
            s.len() as int
        }
    }
}

/// The fields of `p`: its text split at each `,`, leaving out every `[` and space.
pub open spec fn fields_of(p: Seq<char>) -> Seq<Seq<char>>
    decreases p.len(),
{
    if p.len() == 0 {
        seq![Seq::empty()]
    } else {
        let f = fields_of(p.drop_last());
        let c = p.last();
        if c == ',' {
            f.push(Seq::empty())
        } else if c == '[' || c == ' ' {
            f
        } else {
            f.update(f.len() - 1, f.last().push(c))
        }
    }
}

/// What reading `s` as a list gives. The list ends at the first `]`; what
/// follows it is ignored. Its fields are those of the text before that `]`.
/// Errors, first match first: the text opens with another character; a field
/// that a `,` or the `]` ends is not a number; there is no `]`.
pub open spec fn array_result(s: Seq<char>) -> Result<Seq<usize>, ArrParseErrorKind> {
    let e = close_index(s);
    let fields = fields_of(s.take(e));
    let closed = e < s.len();
    let finished = if closed {
        fields
    } else {
        fields.drop_last()
    };
    if s.len() > 0 && !may_open_list(s[0]) {
        Err(ArrParseErrorKind::MissingStart)
    } else if some_field_invalid(finished) {
        Err(ArrParseErrorKind::InvalidNumber)
    } else if !closed {
        Err(ArrParseErrorKind::MissingEnd)
    } else {
        Ok(fields.map_values(|f: Seq<char>| field_number(f)))
    }
}

proof fn lemma_digits_prefix_le(d: Seq<char>, k: int)
    requires
        0 <= k <= d.len(),
    ensures
        digits_value(d.take(k)) <= digits_value(d),
    decreases d.len() - k,
{
    if k < d.len() {
        lemma_digits_prefix_le(d, k + 1);
        assert(d.take(k + 1).drop_last() =~= d.take(k));
    } else {
        assert(d.take(k) =~= d);
    }
}

proof fn lemma_fields_nonempty(p: Seq<char>)
    ensures
        fields_of(p).len() >= 1,
    decreases p.len(),
{
    if p.len() > 0 {
        lemma_fields_nonempty(p.drop_last());
    }
}

/// Reading further never changes a field that a `,` has already ended.
proof fn lemma_fields_stable(s: Seq<char>, i: int, j: int)
    requires
        0 <= i <= j <= s.len(),
    ensures
        fields_of(s.take(j)).len() >= fields_of(s.take(i)).len(),
        forall|k: int|
            0 <= k < fields_of(s.take(i)).len() - 1 ==> fields_of(s.take(j))[k] == fields_of(
                s.take(i),
            )[k],
    decreases j - i,
{
    if i < j {
        lemma_fields_stable(s, i, j - 1);
        assert(s.take(j).drop_last() =~= s.take(j - 1));
        lemma_fields_nonempty(s.take(j - 1));
    }
}

proof fn lemma_close_none(s: Seq<char>)
    requires
        forall|j: int| 0 <= j < s.len() ==> s[j] != ']',
    ensures
        close_index(s) == s.len(),
    decreases s.len(),
{
    if s.len() > 0 {
        lemma_close_none(s.drop_last());
    }
}

proof fn lemma_close_after(s: Seq<char>, m: int)
    requires
        0 <= m <= s.len(),
        forall|j: int| 0 <= j < m ==> s[j] != ']',
    ensures
        m <= close_index(s) <= s.len(),
    decreases s.len(),
{
    if s.len() == m {
        lemma_close_none(s);
    } else {
        lemma_close_after(s.drop_last(), m);
    }
}

proof fn lemma_close_at(s: Seq<char>, i: int)
    requires
        0 <= i < s.len(),
        s[i] == ']',
        forall|j: int| 0 <= j < i ==> s[j] != ']',
    ensures
        close_index(s) == i,
    decreases s.len(),
{
    if s.len() == i + 1 {
        lemma_close_none(s.drop_last());
    } else {
        lemma_close_at(s.drop_last(), i);
    }
}

/// Reads a field as a number: decimal digits after an optional `+`.
fn parse_field(f: &Vec<char>) -> (r: Option<usize>)
    ensures
        r == field_value(f@),
{
    let n = f.len();
    let start: usize = if n > 0 && f[0] == '+' {
        1
    } else {
        0
    };
    let ghost d = unsigned_digits(f@);
    assert(d =~= f@.subrange(start as int, n as int));
    if start == n {
        return None;
    }
    let mut v: usize = 0;
    let mut i: usize = start;
    while i < n
        invariant
            start <= i <= n == f@.len(),
            d == f@.subrange(start as int, n as int),
            d == unsigned_digits(f@),
            forall|j: int| 0 <= j < i - start ==> is_decimal_digit(#[trigger] d[j]),
            v as nat == digits_value(d.take(i - start)),
        decreases n - i,
    {
        let c = f[i];
        assert(d[i - start] == c);
        if c < '0' || c > '9' {
            assert(!is_decimal_digit(d[i - start]));
            assert(!all_decimal(d));
            return None;
        }
        let dv = (c as u32 - '0' as u32) as usize;
        assert(dv == digit_value(c));
        assert(d.take(i + 1 - start).drop_last() =~= d.take(i - start));
        if v > (usize::MAX - dv) / 10 {
            assert(v * 10 + dv > usize::MAX) by (nonlinear_arith)
                requires
                    v > (usize::MAX - dv) / 10,
                    dv <= 9,
            ;
            proof {
                lemma_digits_prefix_le(d, i + 1 - start);
                assert(digits_value(d.take(i + 1 - start)) == v * 10 + dv);
                if all_decimal(d) {
                    assert(digits_value(d) > usize::MAX);
                }
            }
            return None;
        }
        assert(v * 10 + dv <= usize::MAX) by (nonlinear_arith)
            requires
                v <= (usize::MAX - dv) / 10,
                dv <= 9,
        ;
        assert(digits_value(d.take(i + 1 - start)) == v * 10 + dv);
        v = v * 10 + dv;
        i += 1;
    }
    assert(d.take(n - start) =~= d);
    Some(v)
}

/// The characters of `s`, in order.
pub(crate) fn chars_of(s: &str) -> (r: Vec<char>)
    ensures
        r@ == s@,
{
    let n = s.unicode_len();
    let mut r: Vec<char> = Vec::new();
    let mut i: usize = 0;
    while i < n
        invariant
            n == s@.len(),
            i <= n,
            r@ == s@.take(i as int),
        decreases n - i,
    {
        r.push(s.get_char(i));
        i += 1;
        assert(r@ =~= s@.take(i as int));
    }
    assert(s@.take(n as int) =~= s@);
    r
}

/// Reads a bracketed list of numbers such as `[121,12, 3, 42192]`; see
/// [`array_result`] for what is read and which error comes when.
pub fn parse_array(arr_str: &str) -> (r: Result<Vec<usize>, ArrParseError>)
    ensures
        match r {
            Ok(v) => array_result(arr_str@) == Ok::<Seq<usize>, ArrParseErrorKind>(v@),
            Err(e) => array_result(arr_str@) == Err::<Seq<usize>, ArrParseErrorKind>(e.kind),
        },
{
    let chars = chars_of(arr_str);
    parse_array_chars(&chars)
}

/// Reads a list of numbers from characters; see [`array_result`].
pub(crate) fn parse_array_chars(s: &Vec<char>) -> (r: Result<Vec<usize>, ArrParseError>)
    ensures
        match r {
            Ok(v) => array_result(s@) == Ok::<Seq<usize>, ArrParseErrorKind>(v@),
            Err(e) => array_result(s@) == Err::<Seq<usize>, ArrParseErrorKind>(e.kind),
        },
{
    let mut result: Vec<usize> = Vec::new();
    let mut num: Vec<char> = Vec::new();
    let n = s.len();
    let mut i: usize = 0;
    assert(s@.take(0) =~= Seq::<char>::empty());
    while i < n
        invariant
            0 <= i <= n == s@.len(),
            i > 0 ==> may_open_list(s@[0]) && s@[0] != ',' && s@[0] != ']',
            forall|j: int| 0 <= j < i ==> s@[j] != ']',
            fields_of(s@.take(i as int)).len() == result@.len() + 1,
            fields_of(s@.take(i as int)).last() == num@,
            forall|k: int|
                0 <= k < result@.len() ==> field_value(fields_of(s@.take(i as int))[k]) == Some(
                    #[trigger] result@[k],
                ),
        decreases n - i,
    {
        let c = s[i];
        let ghost prev = fields_of(s@.take(i as int));
        assert(s@.take(i + 1).drop_last() =~= s@.take(i as int));
        if c == '[' || c == ' ' {
        } else if c == ',' {
            match parse_field(&num) {
                Some(v) => {
                    result.push(v);
                    num = Vec::new();
                },
                None => {
                    proof {
                        let e = close_index(s@);
                        lemma_close_after(s@, i + 1);
                        lemma_fields_stable(s@, i + 1, e);
                        let fields = fields_of(s@.take(e));
                        let finished = if e < s@.len() {
                            fields
                        } else {
                            fields.drop_last()
                        };
                        let k = result@.len() as int;
                        assert(fields_of(s@.take(i + 1)) == prev.push(Seq::empty()));
                        assert(fields[k] == num@);
                        assert(finished[k] == num@);
                        assert(field_value(finished[k]) is None);
                    }
                    return Err(ArrParseError { kind: ArrParseErrorKind::InvalidNumber });
                },
            }
        } else if c == ']' {
            match parse_field(&num) {
                Some(v) => {
                    proof {
                        lemma_close_at(s@, i as int);
                        assert forall|k: int| 0 <= k < prev.len() implies #[trigger] field_value(
                            prev[k],
                        ) is Some by {
                            if k < result@.len() {
                                assert(field_value(prev[k]) == Some(result@[k]));
                            }
                        }
                    }
                    result.push(v);
                    proof {
                        assert(prev.map_values(|f: Seq<char>| field_number(f)) =~= result@);
                    }
                    return Ok(result);
                },
                None => {
                    proof {
                        lemma_close_at(s@, i as int);
                        assert(field_value(prev[result@.len() as int]) is None);
                    }
                    return Err(ArrParseError { kind: ArrParseErrorKind::InvalidNumber });
                },
            }
        } else {
            if i == 0 {
                return Err(ArrParseError { kind: ArrParseErrorKind::MissingStart });
            }
            num.push(c);
        }
        proof {
            lemma_fields_nonempty(s@.take(i as int));
        }
        assert(fields_of(s@.take(i + 1)).last() == num@);
        i += 1;
    }
    proof {
        lemma_close_none(s@);
        assert(s@.take(n as int) =~= s@);
        let finished = fields_of(s@).drop_last();
        assert forall|k: int| 0 <= k < finished.len() implies #[trigger] field_value(
            finished[k],
        ) is Some by {
            assert(field_value(fields_of(s@)[k]) == Some(result@[k]));
        }
    }
    Err(ArrParseError { kind: ArrParseErrorKind::MissingEnd })
}

} // verus!
