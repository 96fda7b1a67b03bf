use vstd::prelude::*;
use vstd::std_specs::iter::IteratorSpec;

verus! {

/// The message of a mapping that is not `key=value`.
pub open spec fn mapping_error_text() -> Seq<char> {
    "Mapping should be in the format key=value"@
}

fn mapping_error() -> (r: String)
    ensures
        r@ == mapping_error_text(),
{
    broadcast use vstd::string::to_string_from_display_ensures_for_str;

    "Mapping should be in the format key=value".to_string()
}

/// `s` holds exactly one `=`, at position `p`.
pub open spec fn single_separator_at(s: Seq<char>, p: int) -> bool {
    &&& 0 <= p < s.len()
    &&& s[p] == '='
    &&& forall|j: int| 0 <= j < s.len() && j != p ==> #[trigger] s[j] != '='
}

/// Relies on String::push: appends one character.
#[verifier::external_body]
fn push_char(s: &mut String, c: char)
    ensures
        final(s)@ == old(s)@.push(c),
{
    s.push(c)
}

/// Splits `name=command` at its one `=`; anything else is an error.
pub fn parse_mapping(s: &str) -> (r: Result<(String, String), String>)
    ensures
        r matches Ok((k, v)) ==> exists|p: int|
            #[trigger] single_separator_at(s@, p) && k@ == s@.take(p) && v@ == s@.skip(p + 1),
        r matches Err(e) ==> e@ == mapping_error_text() && forall|p: int| !#[trigger] single_separator_at(s@, p),
{
    let mut key = String::new();
    let mut value = String::new();
    let mut seen = false;
    let ghost mut pos: int = 0;
    let ghost mut sep: int = 0;
    let mut it = s.chars();
    proof {
        assert(it.remaining() == s@);
    }
    loop
        invariant
            0 <= pos <= s@.len(),
            it.remaining() == s@.skip(pos),
            !seen ==> key@ == s@.take(pos) && value@.len() == 0
                && forall|j: int| 0 <= j < pos ==> #[trigger] s@[j] != '=',
            seen ==> {
                &&& 0 <= sep < pos
                &&& s@[sep] == '='
                &&& forall|j: int| 0 <= j < pos && j != sep ==> #[trigger] s@[j] != '='
                &&& key@ == s@.take(sep)
                &&& value@ == s@.subrange(sep + 1, pos)
            },
        ensures
            pos == s@.len(),
            !seen ==> key@ == s@.take(pos) && forall|j: int| 0 <= j < pos ==> #[trigger] s@[j] != '=',
            seen ==> {
                &&& 0 <= sep < pos
                &&& s@[sep] == '='
                &&& forall|j: int| 0 <= j < pos && j != sep ==> #[trigger] s@[j] != '='
                &&& key@ == s@.take(sep)
                &&& value@ == s@.subrange(sep + 1, pos)
            },
        decreases s@.len() - pos,
    {
        let ghost before = it.remaining();
        match it.next() {
            None => {
                assert(before.len() == 0);
                break;
            },
            Some(c) => {
                assert(c == s@[pos]);
                if c == '=' {
                    if seen {
                        proof {
                            assert forall|p: int| !#[trigger] single_separator_at(s@, p) by {
                                if single_separator_at(s@, p) {
                                    assert(p == sep || p == pos);
                                }
                            }
                        }
                        return Err(mapping_error());
                    }
                    seen = true;
                    proof { sep = pos; }
                } else if seen {
                    push_char(&mut value, c);
                } else {
                    push_char(&mut key, c);
                }
                proof {
                    pos = pos + 1;
                    assert(key@ =~= s@.take(if seen { sep } else { pos }));
                    if seen {
                        assert(value@ =~= s@.subrange(sep + 1, pos));
                    }
                    assert(it.remaining() =~= s@.skip(pos));
                }
            },
        }
    }
    assert(pos == s@.len());
    if seen {
        assert(single_separator_at(s@, sep));
        assert(value@ =~= s@.skip(sep + 1));
        Ok((key, value))
    } else {
        assert forall|p: int| !#[trigger] single_separator_at(s@, p) by {}
        Err(mapping_error())
    }
}

} // verus!
