//! Reading comma-separated price tables.
//!
//! A table's text loses its leading and trailing white space, and is cut into
//! records at each line feed (a carriage return before a line feed going with
//! it) and each record into fields at each comma.

use vstd::prelude::*;
use crate::parse::{chars_of, is_white_space, spec_is_white_space, strip_cr, trim_end};

verus! {

/// `s` without its leading white space.
pub open spec fn trim_start(s: Seq<char>) -> Seq<char>
    decreases s.len(),
{
    if s.len() > 0 && spec_is_white_space(s[0]) {
        trim_start(s.drop_first())
    } else {
        s
    }
}

/// The records of `s`, each a sequence of fields.
pub open spec fn split_records(s: Seq<char>) -> Seq<Seq<Seq<char>>>
    decreases s.len(),
{
    if s.len() == 0 {
        seq![seq![Seq::empty()]]
    } else {
        let recs = split_records(s.drop_last());
        let rec = recs.last();
        let c = s.last();
        if c == '\n' {
            recs.update(recs.len() - 1, rec.update(rec.len() - 1, strip_cr(rec.last()))).push(
                seq![Seq::empty()],
            )
        } else if c == ',' {
            recs.update(recs.len() - 1, rec.push(Seq::empty()))
        } else {
            recs.update(recs.len() - 1, rec.update(rec.len() - 1, rec.last().push(c)))
        }
    }
}

/// The records of a table's text.
pub open spec fn records_of(text: Seq<char>) -> Seq<Seq<Seq<char>>> {
    let body = trim_start(trim_end(text));
    if body.len() == 0 {
        Seq::empty()
    } else {
        split_records(body)
    }
}

/// The fields of records, as character sequences.
pub open spec fn fields_view(recs: Seq<Vec<&'static str>>) -> Seq<Seq<Seq<char>>> {
    recs.map_values(|r: Vec<&'static str>| r@.map_values(|f: &'static str| f@))
}

/// The records of a table, each field a slice of `text`.
pub fn read_records(text: &'static str) -> (r: Vec<Vec<&'static str>>)
    ensures
        fields_view(r@) == records_of(text@),
{
    let s = chars_of(text);
    let mut end = s.len();
    proof {
        assert(s@.subrange(0, end as int) =~= s@);
    }
    while end > 0 && is_white_space(s[end - 1])
        invariant
            end <= s.len(),
            s@ == text@,
            trim_end(s@.subrange(0, end as int)) == trim_end(s@),
        decreases end,
    {
        proof {
            assert(s@.subrange(0, end as int).drop_last() =~= s@.subrange(0, end - 1));
        }
        end -= 1;
    }
    let mut start: usize = 0;
    proof {
        assert(trim_end(s@) == s@.subrange(0, end as int));
        assert(s@.subrange(start as int, end as int) =~= s@.subrange(0, end as int));
    }
    while start < end && is_white_space(s[start])
        invariant
            start <= end <= s.len(),
            trim_start(s@.subrange(start as int, end as int)) == trim_start(trim_end(s@)),
        decreases end - start,
    {
        proof {
            assert(s@.subrange(start as int, end as int).drop_first() =~= s@.subrange(
                start + 1,
                end as int,
            ));
        }
        start += 1;
    }
    let ghost body = s@.subrange(start as int, end as int);
    proof {
        assert(trim_start(trim_end(s@)) == body);
    }
    let mut recs: Vec<Vec<&'static str>> = Vec::new();
    if start == end {
        proof {
            assert(fields_view(recs@) =~= records_of(text@));
        }
        return recs;
    }
    let mut fields: Vec<&'static str> = Vec::new();
    let mut from = start;
    let mut j = start;
    proof {
        assert(s@.subrange(start as int, j as int) =~= Seq::<char>::empty());
        assert(s@.subrange(from as int, j as int) =~= Seq::<char>::empty());
        assert(fields_view(recs@).push(fields@.map_values(|f: &'static str| f@).push(
            s@.subrange(from as int, j as int),
        )) =~~= seq![seq![Seq::<char>::empty()]]);
    }
    while j < end
        invariant
            start <= from <= j <= end,
            end <= s.len(),
            s@ == text@,
            fields_view(recs@).push(
                fields@.map_values(|f: &'static str| f@).push(s@.subrange(from as int, j as int)),
            ) == split_records(s@.subrange(start as int, j as int)),
        decreases end - j,
    {
        let ghost prev_recs = fields_view(recs@);
        let ghost prev_fields = fields@.map_values(|f: &'static str| f@);
        let ghost field = s@.subrange(from as int, j as int);
        let c = s[j];
        proof {
            assert(s@.subrange(start as int, j + 1).drop_last() =~= s@.subrange(start as int, j as int));
            assert(s@.subrange(from as int, j + 1) =~= field.push(c));
        }
        if c == '\n' {
            let to = if j > from && s[j - 1] == '\r' {
                j - 1
            } else {
                j
            };
            let f = text.substring_char(from, to);
            proof {
                assert(f@ =~= strip_cr(field));
            }
            fields.push(f);
            proof {
                assert(fields@.map_values(|f: &'static str| f@) =~= prev_fields.push(strip_cr(field)));
            }
            let ghost rec = fields@.map_values(|f: &'static str| f@);
            recs.push(fields);
            fields = Vec::new();
            from = j + 1;
            proof {
                assert(fields_view(recs@) =~= prev_recs.push(rec));
                assert(s@.subrange(from as int, j + 1) =~= Seq::<char>::empty());
                assert(fields_view(recs@).push(
                    fields@.map_values(|f: &'static str| f@).push(s@.subrange(from as int, j + 1)),
                ) =~~= split_records(s@.subrange(start as int, j + 1)));
            }
        } else if c == ',' {
            let f = text.substring_char(from, j);
            fields.push(f);
            from = j + 1;
            proof {
                assert(fields@.map_values(|f: &'static str| f@) =~= prev_fields.push(field));
                assert(s@.subrange(from as int, j + 1) =~= Seq::<char>::empty());
                assert(fields_view(recs@).push(
                    fields@.map_values(|f: &'static str| f@).push(s@.subrange(from as int, j + 1)),
                ) =~~= split_records(s@.subrange(start as int, j + 1)));
            }
        } else {
            proof {
                assert(fields_view(recs@).push(
                    fields@.map_values(|f: &'static str| f@).push(s@.subrange(from as int, j + 1)),
                ) =~~= split_records(s@.subrange(start as int, j + 1)));
            }
        }
        j += 1;
    }
    let ghost prev_recs = fields_view(recs@);
    let ghost prev_fields = fields@.map_values(|f: &'static str| f@);
    let f = text.substring_char(from, end);
    fields.push(f);
    proof {
        assert(fields@.map_values(|f: &'static str| f@) =~= prev_fields.push(
            s@.subrange(from as int, end as int),
        ));
    }
    let ghost rec = fields@.map_values(|f: &'static str| f@);
    recs.push(fields);
    proof {
        assert(fields_view(recs@) =~= prev_recs.push(rec));
    }
    recs
}

} // verus!
