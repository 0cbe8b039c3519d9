//! The selection model: a per-page margin specification, parsed from a
//! colon-separated string with positional inheritance from the previous
//! selection.
//!
//! A specification string has the form
//! `page_number[:left[:bottom[:right[:top]]]]`.  Between 1 and 5
//! colon-separated fields are accepted.  The first field must be a
//! non-negative decimal integer (the page number); each later field is
//! either a non-negative decimal integer (an explicit margin width) or
//! empty, in which case the margin is inherited from the previous
//! selection.  Missing trailing fields inherit exactly as empty fields do.

use vstd::prelude::*;
use crate::SpecError;

verus! {

/// A fully resolved selection: a page number and the four margin widths
/// in the order left, bottom, right, top.  After a successful parse every
/// slot is populated, either explicitly or by inheritance.
#[derive(Clone, Copy, Debug, PartialEq, Eq, Structural)]
pub struct Selection {
    pub page_number: u32,
    pub left: u32,
    pub bottom: u32,
    pub right: u32,
    pub top: u32,
}

/// The all-zero selection, from which the very first selection in a run
/// inherits.
pub open spec fn zero_selection() -> Selection {
    Selection { page_number: 0, left: 0, bottom: 0, right: 0, top: 0 }
}

impl Default for Selection {
    /// The all-zero selection.
    fn default() -> (r: Selection)
        ensures
            r == zero_selection(),
    {
        Selection { page_number: 0, left: 0, bottom: 0, right: 0, top: 0 }
    }
}

impl Selection {
    /// The margin at position `i` of the order left, bottom, right, top.
    pub open spec fn spec_margin(&self, i: int) -> u32 {
        if i == 0 {
            self.left
        } else if i == 1 {
            self.bottom
        } else if i == 2 {
            self.right
        } else {
            self.top
        }
    }
}

/// Index of the first colon of `s`, or `s.len()` if `s` has none.
pub open spec fn first_colon(s: Seq<char>) -> int
    decreases s.len(),
{
    if s.len() == 0 {
        0
    } else if s[0] == ':' {
        0
    } else {
        1 + first_colon(s.skip(1))
    }
}

pub proof fn lemma_first_colon(s: Seq<char>)
    ensures
        0 <= first_colon(s) <= s.len(),
        first_colon(s) < s.len() ==> s[first_colon(s)] == ':',
        forall|j: int| 0 <= j < first_colon(s) ==> s[j] != ':',
    decreases s.len(),
{
    if s.len() != 0 && s[0] != ':' {
        lemma_first_colon(s.skip(1));
        assert forall|j: int| 0 <= j < first_colon(s) implies s[j] != ':' by {
            if j > 0 {
                assert(s.skip(1)[j - 1] == s[j]);
            }
        }
        if first_colon(s) < s.len() {
            assert(s.skip(1)[first_colon(s) - 1] == s[first_colon(s)]);
        }
    }
}

/// The colon-separated fields of `s`, in order.  There is always at least
/// one field; an empty string yields one empty field.
pub open spec fn fields_of(s: Seq<char>) -> Seq<Seq<char>>
    decreases s.len(),
{
    let i = first_colon(s);
    if 0 <= i < s.len() && s[i] == ':' {
        seq![s.take(i)] + fields_of(s.skip(i + 1))
    } else {
        seq![s]
    }
}

pub proof fn lemma_at_least_one_field(s: Seq<char>)
    ensures
        fields_of(s).len() >= 1,
{
}

/// If the first colon of `s` stands at `m`, the fields of `s` are the
/// prefix before it followed by the fields of the rest.
proof fn lemma_fields_head(s: Seq<char>, m: int)
    requires
        0 <= m < s.len(),
        s[m] == ':',
        forall|j: int| 0 <= j < m ==> s[j] != ':',
    ensures
        fields_of(s) == seq![s.take(m)] + fields_of(s.skip(m + 1)),
{
    lemma_first_colon(s);
    if first_colon(s) < m {
        assert(s[first_colon(s)] == ':');
        assert(false);
    }
    if m < first_colon(s) {
        assert(s[m] != ':');
        assert(false);
    }
}

/// A string without a colon is a single field.
proof fn lemma_fields_single(s: Seq<char>)
    requires
        forall|j: int| 0 <= j < s.len() ==> s[j] != ':',
    ensures
        fields_of(s) == seq![s],
{
    lemma_first_colon(s);
    if first_colon(s) < s.len() {
        assert(s[first_colon(s)] == ':');
        assert(false);
    }
}

/// Decimal digits and numerals.
pub open spec fn is_digit(c: char) -> bool {
    48 <= c as u32 <= 57
}

pub open spec fn digit_val(c: char) -> int {
    c as u32 - 48
}

pub open spec fn all_digits(f: Seq<char>) -> bool {
    forall|i: int| 0 <= i < f.len() ==> is_digit(#[trigger] f[i])
}

/// The value of a sequence of decimal digits, most significant first.
pub open spec fn numeral_value(f: Seq<char>) -> int
    decreases f.len(),
{
    if f.len() == 0 {
        0
    } else {
        numeral_value(f.drop_last()) * 10 + digit_val(f.last())
    }
}

/// A field parses as a `u32` when it is a non-empty, all-digit numeral
/// whose value fits.
pub open spec fn parses_as_u32(f: Seq<char>) -> bool {
    f.len() > 0 && all_digits(f) && numeral_value(f) <= u32::MAX
}

proof fn lemma_numeral_nonneg(f: Seq<char>)
    requires
        all_digits(f),
    ensures
        numeral_value(f) >= 0,
    decreases f.len(),
{
    if f.len() > 0 {
        assert(all_digits(f.drop_last())) by {
            assert(forall|i: int| 0 <= i < f.len() - 1 ==> f.drop_last()[i] == f[i]);
        }
        lemma_numeral_nonneg(f.drop_last());
    }
}

/// A numeral's value only grows as digits are appended.
proof fn lemma_numeral_take_mono(f: Seq<char>, i: int)
    requires
        all_digits(f),
        0 <= i <= f.len(),
    ensures
        numeral_value(f.take(i)) <= numeral_value(f),
    decreases f.len(),
{
    if i < f.len() {
        assert(all_digits(f.drop_last())) by {
            assert(forall|k: int| 0 <= k < f.len() - 1 ==> f.drop_last()[k] == f[k]);
        }
        assert(f.drop_last().take(i) =~= f.take(i));
        lemma_numeral_take_mono(f.drop_last(), i);
        lemma_numeral_nonneg(f.drop_last());
    } else {
        assert(f.take(i) =~= f);
    }
}

/// Parses a field as a non-negative decimal integer that fits in `u32`.
fn parse_u32(f: &str) -> (r: Option<u32>)
    ensures
        r == (if parses_as_u32(f@) {
            Option::Some(numeral_value(f@) as u32)
        } else {
            Option::None
        }),
{
    let m = f.unicode_len();
    if m == 0 {
        return None;
    }
    let mut acc: u64 = 0;
    let mut i: usize = 0;
    while i < m
        invariant
            m == f@.len(),
            0 <= i <= m,
            all_digits(f@.take(i as int)),
            acc == numeral_value(f@.take(i as int)),
            acc <= u32::MAX as u64,
        decreases m - i,
    {
        let c = f.get_char(i);
        let cv = c as u32;
        if cv < 48 || 57 < cv {
            assert(!all_digits(f@));
            return None;
        }
        let d = (cv - 48) as u64;
        let acc2: u64 = acc * 10 + d;
        proof {
            assert(f@.take(i + 1).drop_last() =~= f@.take(i as int));
            assert(f@.take(i + 1).last() == f@[i as int]);
            assert(all_digits(f@.take(i + 1))) by {
                assert(forall|k: int| 0 <= k < i + 1 ==> f@.take(i + 1)[k] == f@[k]);
            }
            assert(acc2 == numeral_value(f@.take(i + 1)));
        }
        if acc2 > u32::MAX as u64 {
            proof {
                if all_digits(f@) {
                    lemma_numeral_take_mono(f@, i + 1);
                }
            }
            return None;
        }
        acc = acc2;
        i = i + 1;
    }
    proof {
        assert(f@.take(m as int) =~= f@);
    }
    Some(acc as u32)
}

/// The views of a sequence of string slices.
pub open spec fn views_of(fs: Seq<&str>) -> Seq<Seq<char>> {
    fs.map_values(|f: &str| f@)
}

/// What margin position `idx - 1` resolves to, given the fields and the
/// previous selection's value at that position: an explicit numeral parses
/// literally, an empty or missing field inherits.
pub open spec fn spec_resolve_margin(fs: Seq<Seq<char>>, idx: int, prev_val: u32) -> Result<
    u32,
    SpecError,
> {
    if idx < fs.len() && fs[idx].len() > 0 {
        if parses_as_u32(fs[idx]) {
            Ok(numeral_value(fs[idx]) as u32)
        } else {
            Err(SpecError::InvalidMargin)
        }
    } else {
        Ok(prev_val)
    }
}

/// The margins of a successful parse, or the margin error.
pub open spec fn spec_populate(fs: Seq<Seq<char>>, prev: Selection, page: u32) -> Result<
    Selection,
    SpecError,
> {
    let l = spec_resolve_margin(fs, 1, prev.left);
    let b = spec_resolve_margin(fs, 2, prev.bottom);
    let r = spec_resolve_margin(fs, 3, prev.right);
    let t = spec_resolve_margin(fs, 4, prev.top);
    if l is Ok && b is Ok && r is Ok && t is Ok {
        Ok(
            Selection {
                page_number: page,
                left: l->Ok_0,
                bottom: b->Ok_0,
                right: r->Ok_0,
                top: t->Ok_0,
            },
        )
    } else {
        Err(SpecError::InvalidMargin)
    }
}

/// The whole parse: field count within `[1, 5]`, a numeric page number,
/// and the four margins resolved positionally against `prev`.
pub open spec fn spec_parse_selection(s: Seq<char>, prev: Selection) -> Result<
    Selection,
    SpecError,
> {
    let fs = fields_of(s);
    if fs.len() < 1 || fs.len() > 5 {
        Err(SpecError::MalformedSpec)
    } else if !parses_as_u32(fs[0]) {
        Err(SpecError::InvalidPageNumber)
    } else {
        spec_populate(fs, prev, numeral_value(fs[0]) as u32)
    }
}

/// Resolves margin position `idx - 1` from the parsed fields.
fn resolve_margin(fields: &Vec<&str>, idx: usize, prev_val: u32) -> (r: Result<u32, SpecError>)
    ensures
        r == spec_resolve_margin(views_of(fields@), idx as int, prev_val),
{
    if idx < fields.len() {
        let f = fields[idx];
        if f.unicode_len() > 0 {
            match parse_u32(f) {
                Some(v) => Ok(v),
                None => Err(SpecError::InvalidMargin),
            }
        } else {
            Ok(prev_val)
        }
    } else {
        Ok(prev_val)
    }
}

impl Selection {
    /// Parses a specification string against a previous selection, whose
    /// margins stand in for every empty or missing margin field.
    pub fn new_or_default(s: &str, default_selection: &Selection) -> (r: Result<
        Selection,
        SpecError,
    >)
        ensures
            r == spec_parse_selection(s@, *default_selection),
    {
        let n = s.unicode_len();
        let mut fields: Vec<&str> = Vec::new();
        let mut start: usize = 0;
        let mut j: usize = 0;
        proof {
            assert(s@.skip(0) =~= s@);
            assert(views_of(fields@) + fields_of(s@) =~= fields_of(s@));
        }
        while j < n
            invariant
                n == s@.len(),
                0 <= start <= j <= n,
                forall|k: int| start <= k < j ==> s@[k] != ':',
                fields_of(s@) == views_of(fields@) + fields_of(s@.skip(start as int)),
            decreases n - j,
        {
            let c = s.get_char(j);
            if c == ':' {
                let field = s.substring_char(start, j);
                proof {
                    let t = s@.skip(start as int);
                    let m = j - start;
                    assert forall|k: int| 0 <= k < m implies t[k] != ':' by {
                        assert(t[k] == s@[start + k]);
                    }
                    assert(t[m] == s@[j as int]);
                    lemma_fields_head(t, m);
                    assert(t.take(m) =~= s@.subrange(start as int, j as int));
                    assert(t.skip(m + 1) =~= s@.skip(j + 1));
                    assert(views_of(fields@.push(field)) =~= views_of(fields@) + seq![field@]);
                    assert(views_of(fields@) + (seq![field@] + fields_of(s@.skip(j + 1)))
                        =~= (views_of(fields@) + seq![field@]) + fields_of(s@.skip(j + 1)));
                }
                fields.push(field);
                start = j + 1;
            }
            j = j + 1;
        }
        let last_field = s.substring_char(start, n);
        proof {
            let t = s@.skip(start as int);
            assert forall|k: int| 0 <= k < t.len() implies t[k] != ':' by {
                assert(t[k] == s@[start + k]);
            }
            lemma_fields_single(t);
            assert(t =~= s@.subrange(start as int, n as int));
            assert(views_of(fields@.push(last_field)) =~= views_of(fields@) + seq![last_field@]);
        }
        fields.push(last_field);
        assert(views_of(fields@) == fields_of(s@));

        if fields.len() > 5 {
            return Err(SpecError::MalformedSpec);
        }
        assert(fields@.len() >= 1);
        let page = match parse_u32(fields[0]) {
            Some(v) => v,
            None => {
                return Err(SpecError::InvalidPageNumber);
            },
        };
        let left = match resolve_margin(&fields, 1, default_selection.left) {
            Ok(v) => v,
            Err(e) => {
                return Err(e);
            },
        };
        let bottom = match resolve_margin(&fields, 2, default_selection.bottom) {
            Ok(v) => v,
            Err(e) => {
                return Err(e);
            },
        };
        let right = match resolve_margin(&fields, 3, default_selection.right) {
            Ok(v) => v,
            Err(e) => {
                return Err(e);
            },
        };
        let top = match resolve_margin(&fields, 4, default_selection.top) {
            Ok(v) => v,
            Err(e) => {
                return Err(e);
            },
        };
        Ok(Selection { page_number: page, left, bottom, right, top })
    }
}

/// Validates a specification string against the all-zero default, handing
/// back an owned copy of the string when it is acceptable.
pub fn is_valid_selection(val: &str) -> (r: Result<String, SpecError>)
    ensures
        match r {
            Ok(o) => o@ == val@ && spec_parse_selection(val@, zero_selection()) is Ok,
            Err(e) => spec_parse_selection(val@, zero_selection()) == Err::<Selection, SpecError>(
                e,
            ),
        },
{
    let zero = Selection { page_number: 0, left: 0, bottom: 0, right: 0, top: 0 };
    match Selection::new_or_default(val, &zero) {
        Ok(_) => Ok(val.to_owned()),
        Err(e) => Err(e),
    }
}

/// The decimal rendering of a number, most significant digit first.
pub open spec fn dec_str(n: nat) -> Seq<char>
    decreases n,
{
    if n < 10 {
        seq![crate::encoding::hex_digit_char(n as u8)]
    } else {
        dec_str(n / 10) + seq![crate::encoding::hex_digit_char((n % 10) as u8)]
    }
}

/// Appends the decimal rendering of `n` to the string.
fn append_u32(s: &mut String, n: u32)
    ensures
        final(s)@ == old(s)@ + dec_str(n as nat),
    decreases n,
{
    if n < 10 {
        crate::encoding::append_hex_digit(s, n as u8);
    } else {
        append_u32(s, n / 10);
        crate::encoding::append_hex_digit(s, (n % 10) as u8);
    }
}

/// A selection rendered back in the specification format
/// `page_number:left:bottom:right:top`, margins in order.
pub open spec fn selection_display(sel: Selection) -> Seq<char> {
    dec_str(sel.page_number as nat) + seq![':'] + dec_str(sel.left as nat) + seq![':'] + dec_str(
        sel.bottom as nat,
    ) + seq![':'] + dec_str(sel.right as nat) + seq![':'] + dec_str(sel.top as nat)
}

impl Selection {
    /// Renders the selection in the specification format, every margin
    /// written out.
    pub fn to_display_string(&self) -> (r: String)
        ensures
            r@ == selection_display(*self),
    {
        proof {
            reveal_strlit(":");
        }
        let mut s = String::new();
        append_u32(&mut s, self.page_number);
        s.append(":");
        append_u32(&mut s, self.left);
        s.append(":");
        append_u32(&mut s, self.bottom);
        s.append(":");
        append_u32(&mut s, self.right);
        s.append(":");
        append_u32(&mut s, self.top);
        proof {
            assert(":"@ =~= seq![':']);
        }
        s
    }
}

/// A specification whose field count falls outside `[1, 5]` is always
/// rejected as malformed, whatever the previous selection; no selection
/// is produced.
pub proof fn lemma_malformed_field_count(s: Seq<char>, prev: Selection)
    requires
        fields_of(s).len() == 0 || fields_of(s).len() > 5,
    ensures
        spec_parse_selection(s, prev) == Err::<Selection, SpecError>(SpecError::MalformedSpec),
{
}

/// Positional inheritance: an empty or missing margin field takes the
/// previous selection's value at that position, and a non-empty field
/// parses literally.
pub proof fn lemma_field_inheritance(s: Seq<char>, prev: Selection, sel: Selection, i: int)
    requires
        spec_parse_selection(s, prev) == Ok::<Selection, SpecError>(sel),
        1 <= i <= 4,
    ensures
        i < fields_of(s).len() && fields_of(s)[i].len() == 0 ==> sel.spec_margin(i - 1)
            == prev.spec_margin(i - 1),
        i >= fields_of(s).len() ==> sel.spec_margin(i - 1) == prev.spec_margin(i - 1),
        i < fields_of(s).len() && fields_of(s)[i].len() > 0 ==> parses_as_u32(fields_of(s)[i])
            && sel.spec_margin(i - 1) == numeral_value(fields_of(s)[i]) as u32,
{
}

/// Missing trailing margin fields inherit from the previous selection.
pub proof fn lemma_trailing_fields_inherit(s: Seq<char>, prev: Selection, sel: Selection)
    requires
        spec_parse_selection(s, prev) == Ok::<Selection, SpecError>(sel),
    ensures
        fields_of(s).len() <= 4 ==> sel.top == prev.top,
        fields_of(s).len() <= 3 ==> sel.right == prev.right,
        fields_of(s).len() <= 2 ==> sel.bottom == prev.bottom,
        fields_of(s).len() <= 1 ==> sel.left == prev.left,
{
    lemma_field_inheritance(s, prev, sel, 1);
    lemma_field_inheritance(s, prev, sel, 2);
    lemma_field_inheritance(s, prev, sel, 3);
    lemma_field_inheritance(s, prev, sel, 4);
}

} // verus!
