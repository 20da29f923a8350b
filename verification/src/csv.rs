//! Line-oriented CSV field splitting with quoted-field support: a quote
//! toggles quoting, a doubled quote inside a quoted region stands for one
//! literal quote character, and commas split fields only outside quotes.

use vstd::prelude::*;

verus! {

/// The fields that remain in `s`, read with quoting state `in_quotes` and
/// the partially read field `cur`.
pub open spec fn csv_split(s: Seq<char>, in_quotes: bool, cur: Seq<char>) -> Seq<Seq<char>>
    decreases s.len(),
{
    if s.len() == 0 {
        seq![cur]
    } else if s[0] == '"' {
        if in_quotes && s.len() > 1 && s[1] == '"' {
            csv_split(s.skip(2), true, cur.push('"'))
        } else {
            csv_split(s.skip(1), !in_quotes, cur)
        }
    } else if s[0] == ',' && !in_quotes {
        seq![cur] + csv_split(s.skip(1), false, Seq::empty())
    } else {
        csv_split(s.skip(1), in_quotes, cur.push(s[0]))
    }
}

/// The fields of one line: split at unquoted commas, quotes removed,
/// doubled quotes read as one literal quote. A line always has at least one
/// field; a trailing comma yields a final empty field.
pub open spec fn csv_fields(s: Seq<char>) -> Seq<Seq<char>> {
    csv_split(s, false, Seq::<char>::empty())
}

/// Splits one line into its comma-separated fields, honoring quoting.
pub fn parse_csv_line(line: &str) -> (fields: Vec<String>)
    ensures
        fields.deep_view() == csv_fields(line@),
{
    let mut fields: Vec<String> = Vec::new();
    let mut current = String::new();
    let mut in_quotes = false;
    let len = line.unicode_len();
    let mut i: usize = 0;
    proof {
        assert(fields.deep_view() =~= Seq::<Seq<char>>::empty());
        assert(line@.skip(0) =~= line@);
        assert(current@ =~= Seq::<char>::empty());
        assert(Seq::<Seq<char>>::empty() + csv_split(line@, false, current@) =~= csv_split(
            line@,
            false,
            current@,
        ));
    }
    while i < len
        invariant
            0 <= i <= len,
            len == line@.len(),
            csv_fields(line@) == fields.deep_view() + csv_split(
                line@.skip(i as int),
                in_quotes,
                current@,
            ),
        decreases len - i,
    {
        let ghost rest = line@.skip(i as int);
        proof {
            assert(rest[0] == line@[i as int]);
        }
        let c = line.get_char(i);
        if c == '"' {
            if in_quotes && i + 1 < len && line.get_char(i + 1) == '"' {
                proof {
                    assert(rest[1] == line@[i + 1]);
                    assert(rest.skip(2) =~= line@.skip(i + 2));
                    assert(line@.subrange(i + 1, i + 2) =~= seq![line@[i + 1]]);
                }
                let ghost cur0 = current@;
                current.append(line.substring_char(i + 1, i + 2));
                proof {
                    assert(current@ =~= cur0.push('"'));
                }
                i = i + 2;
            } else {
                proof {
                    assert(rest.skip(1) =~= line@.skip(i + 1));
                }
                in_quotes = !in_quotes;
                i = i + 1;
            }
        } else if c == ',' && !in_quotes {
            let ghost fields0 = fields.deep_view();
            let ghost cur0 = current@;
            fields.push(current);
            current = String::new();
            proof {
                assert(rest.skip(1) =~= line@.skip(i + 1));
                assert(fields.deep_view() =~= fields0.push(cur0));
                assert(fields0 + (seq![cur0] + csv_split(line@.skip(i + 1), false, Seq::empty()))
                    =~= fields.deep_view() + csv_split(line@.skip(i + 1), false, Seq::empty()));
                assert(current@ =~= Seq::<char>::empty());
            }
            i = i + 1;
        } else {
            proof {
                assert(rest.skip(1) =~= line@.skip(i + 1));
                assert(line@.subrange(i as int, i + 1) =~= seq![line@[i as int]]);
            }
            let ghost cur0 = current@;
            current.append(line.substring_char(i, i + 1));
            proof {
                assert(current@ =~= cur0.push(c));
            }
            i = i + 1;
        }
    }
    let ghost fields0 = fields.deep_view();
    let ghost cur0 = current@;
    fields.push(current);
    proof {
        assert(line@.skip(len as int) =~= Seq::<char>::empty());
        assert(fields.deep_view() =~= fields0.push(cur0));
        assert(fields0 + seq![cur0] =~= fields0.push(cur0));
    }
    fields
}

} // verus!
