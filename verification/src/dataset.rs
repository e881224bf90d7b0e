use vstd::prelude::*;
use crate::decimal::{chars_of, decimal_text, lemma_parse_round_trip, parse_usize_chars, parsed_usize};
use crate::text::{
    field_bounds, fields, is_whitespace, lemma_fields_nonempty, lemma_trimmed_shape, same_chars, trimmed,
    trimmed_bounds,
};

verus! {

/// Why a header line of a kernel dataset was refused.
#[derive(Debug, Clone, Copy, PartialEq, Eq)]
pub enum HeaderError {
    /// The line does not hold the tag and the expected number of values.
    Malformed,
    /// A value that should be a count is not an unsigned decimal number.
    InvalidNumber,
}

/// A header line `tag,v1,..,v_count` is well formed: it splits at commas
/// into `count + 1` fields, and the first of them, trimmed, is `tag`.
pub open spec fn header_matches(line: Seq<char>, tag: Seq<char>, count: nat) -> bool {
    let f = fields(line, ',');
    f.len() == count + 1 && trimmed(f[0]) == tag
}

/// The `j`-th value of a header line, trimmed.
pub open spec fn header_value(line: Seq<char>, j: int) -> Seq<char> {
    trimmed(fields(line, ',')[j + 1])
}

/// What a header line `tag,n1,..,n_count` of unsigned counts gives.
pub open spec fn header_counts(line: Seq<char>, tag: Seq<char>, count: nat) -> Result<Seq<usize>, HeaderError> {
    if !header_matches(line, tag, count) {
        Err(HeaderError::Malformed)
    } else if exists|j: int| 0 <= j < count && (#[trigger] parsed_usize(header_value(line, j))) is None {
        Err(HeaderError::InvalidNumber)
    } else {
        Ok(Seq::new(count, |j: int| parsed_usize(header_value(line, j))->0))
    }
}

/// Each header value is its comma-separated field with only the leading and
/// trailing whitespace taken off: the field is some whitespace, the value,
/// then some whitespace, and a non-empty value neither starts nor ends with
/// whitespace.
pub proof fn lemma_header_value_is_trimmed_field(line: Seq<char>, j: int)
    requires
        0 <= j,
        j + 1 < fields(line, ',').len(),
    ensures
        exists|a: int, b: int|
            #![trigger fields(line, ',')[j + 1].subrange(a, b)]
            {
                &&& 0 <= a <= b <= fields(line, ',')[j + 1].len()
                &&& fields(line, ',')[j + 1].subrange(a, b) == header_value(line, j)
                &&& forall|i: int| 0 <= i < a ==> is_whitespace(#[trigger] fields(line, ',')[j + 1][i])
                &&& forall|i: int|
                    b <= i < fields(line, ',')[j + 1].len() ==> is_whitespace(
                        #[trigger] fields(line, ',')[j + 1][i],
                    )
                &&& a < b ==> !is_whitespace(fields(line, ',')[j + 1][a]) && !is_whitespace(
                    fields(line, ',')[j + 1][b - 1],
                )
            },
{
    lemma_trimmed_shape(fields(line, ',')[j + 1]);
}

/// A header whose fields are the tag and the decimal texts of `ns` (each
/// with any surrounding whitespace) reads as exactly `ns`.
pub proof fn lemma_header_counts_decimal(line: Seq<char>, tag: Seq<char>, ns: Seq<usize>)
    requires
        fields(line, ',').len() == ns.len() + 1,
        trimmed(fields(line, ',')[0]) == tag,
        forall|j: int| 0 <= j < ns.len() ==> trimmed(fields(line, ',')[j + 1]) == decimal_text(#[trigger] ns[j] as nat),
    ensures
        header_counts(line, tag, ns.len()) == Ok::<Seq<usize>, HeaderError>(ns),
{
    assert forall|j: int| 0 <= j < ns.len() implies #[trigger] parsed_usize(header_value(line, j)) == Some(ns[j]) by {
        lemma_parse_round_trip(ns[j]);
    }
    assert(!(exists|j: int| 0 <= j < ns.len() && (#[trigger] parsed_usize(header_value(line, j))) is None));
    assert(Seq::new(ns.len(), |j: int| parsed_usize(header_value(line, j))->0) =~= ns);
}

/// The counts read from a header are what `str::parse::<usize>` gives for
/// its trimmed fields, one per field after the tag; any other field count
/// or tag is refused as malformed, and a field that is not a number as an
/// invalid number.
pub proof fn lemma_header_counts_outcome(line: Seq<char>, tag: Seq<char>, count: nat)
    ensures
        header_counts(line, tag, count) matches Ok(v) ==> {
            &&& fields(line, ',').len() == count + 1
            &&& trimmed(fields(line, ',')[0]) == tag
            &&& v.len() == count
            &&& forall|j: int|
                0 <= j < count ==> parsed_usize(trimmed(fields(line, ',')[j + 1])) == Some(#[trigger] v[j])
        },
        fields(line, ',').len() != count + 1 ==> header_counts(line, tag, count) == Err::<Seq<usize>, HeaderError>(
            HeaderError::Malformed,
        ),
        fields(line, ',').len() == count + 1 && trimmed(fields(line, ',')[0]) != tag ==> header_counts(
            line,
            tag,
            count,
        ) == Err::<Seq<usize>, HeaderError>(HeaderError::Malformed),
{
}

/// Checks a header line `tag,v1,..,v_count` and hands back its values,
/// trimmed; `None` when the line has another number of fields or another tag.
pub fn header_values(line: &str, tag: &str, count: usize) -> (r: Option<Vec<String>>)
    ensures
        r is Some <==> header_matches(line@, tag@, count as nat),
        r matches Some(v) ==> v.len() == count && forall|j: int|
            0 <= j < count ==> (#[trigger] v[j])@ == header_value(line@, j),
{
    let chars = chars_of(line);
    let tag_chars = chars_of(tag);
    let bounds = field_bounds(chars.as_slice(), ',');
    proof {
        lemma_fields_nonempty(line@, ',');
    }
    if bounds.len() - 1 != count {
        return None;
    }
    let (lo, hi) = bounds[0];
    let (a, b) = trimmed_bounds(chars.as_slice(), lo, hi);
    let first = &chars.as_slice()[a..b];
    assert(first@ =~= chars@.subrange(a as int, b as int));
    if !same_chars(first, tag_chars.as_slice()) {
        return None;
    }
    let mut values: Vec<String> = Vec::new();
    let mut j: usize = 0;
    while j < count
        invariant
            j <= count,
            bounds.len() == count + 1,
            bounds.len() == fields(line@, ',').len(),
            chars@ == line@,
            forall|i: int|
                #![trigger bounds[i]]
                0 <= i < bounds.len() ==> {
                    &&& bounds[i].0 <= bounds[i].1 <= chars.len()
                    &&& chars@.subrange(bounds[i].0 as int, bounds[i].1 as int) == fields(line@, ',')[i]
                },
            values.len() == j,
            forall|i: int| 0 <= i < j ==> (#[trigger] values[i])@ == header_value(line@, i),
        decreases count - j,
    {
        let (lo, hi) = bounds[j + 1];
        let (a, b) = trimmed_bounds(chars.as_slice(), lo, hi);
        let v = line.substring_char(a, b).to_owned();
        values.push(v);
        j = j + 1;
    }
    Some(values)
}

/// Parses a header line `tag,n1,..,n_count` of unsigned counts (such as
/// `dims,NI,NJ,NK,NL`): the fields are trimmed before they are read.
pub fn parse_header_counts(line: &str, tag: &str, count: usize) -> (r: Result<Vec<usize>, HeaderError>)
    ensures
        match (r, header_counts(line@, tag@, count as nat)) {
            (Ok(v), Ok(w)) => v@ == w,
            (Err(e), Err(f)) => e == f,
            _ => false,
        },
{
    let values = match header_values(line, tag, count) {
        Some(v) => v,
        None => {
            return Err(HeaderError::Malformed);
        },
    };
    let mut out: Vec<usize> = Vec::new();
    let mut j: usize = 0;
    while j < count
        invariant
            j <= count,
            values.len() == count,
            header_matches(line@, tag@, count as nat),
            forall|i: int| 0 <= i < count ==> (#[trigger] values[i])@ == header_value(line@, i),
            out.len() == j,
            forall|i: int|
                0 <= i < j ==> parsed_usize(header_value(line@, i)) == Some(#[trigger] out[i]),
        decreases count - j,
    {
        let value_chars = chars_of(values[j].as_str());
        match parse_usize_chars(value_chars.as_slice()) {
            Some(n) => {
                out.push(n);
            },
            None => {
                assert(parsed_usize(header_value(line@, j as int)) is None);
                return Err(HeaderError::InvalidNumber);
            },
        }
        j = j + 1;
    }
    assert forall|i: int| 0 <= i < count implies (#[trigger] parsed_usize(header_value(line@, i))) is Some by {
        assert(parsed_usize(header_value(line@, i)) == Some(out[i]));
    }
    assert(out@ =~= Seq::new(count as nat, |i: int| parsed_usize(header_value(line@, i))->0));
    Ok(out)
}

} // verus!
