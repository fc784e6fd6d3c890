use vstd::prelude::*;

use crate::strutil::push_char;

verus! {

use vstd::string::StringExecFns;
use vstd::string::StrSliceExecFns;

pub open spec fn start_tag_spec(tag_name: Seq<char>) -> Seq<char> {
    seq!['<'] + tag_name + seq!['>']
}

pub open spec fn end_tag_spec(tag_name: Seq<char>) -> Seq<char> {
    seq!['<', '/'] + tag_name + seq!['>']
}

/// The attribute values joined by single spaces.
pub open spec fn attr_join(values: Seq<Seq<char>>) -> Seq<char>
    decreases values.len(),
{
    if values.len() == 0 {
        Seq::empty()
    } else if values.len() == 1 {
        values[0]
    } else {
        attr_join(values.drop_last()) + seq![' '] + values.last()
    }
}

pub open spec fn add_attribute_spec(name: Seq<char>, values: Seq<Seq<char>>) -> Seq<char> {
    seq![' '] + name + seq!['=', '"'] + attr_join(values) + seq!['"']
}

pub open spec fn start_tag_attribute_spec(tag_name: Seq<char>, attribute: Seq<char>) -> Seq<char> {
    if attribute.len() > 0 {
        if attribute[0] == ' ' {
            seq!['<'] + tag_name + attribute + seq!['>']
        } else {
            seq!['<'] + tag_name + seq![' '] + attribute + seq!['>']
        }
    } else {
        seq!['<'] + tag_name + seq!['>']
    }
}

/// `<name>text</name>`.
pub open spec fn add_tag_spec(tag_name: Seq<char>, text: Seq<char>) -> Seq<char> {
    start_tag_spec(tag_name) + text + end_tag_spec(tag_name)
}

/// `<name attributes>text</name>`.
pub open spec fn add_tag_with_attribute_spec(
    tag_name: Seq<char>,
    attribute: Seq<char>,
    text: Seq<char>,
) -> Seq<char> {
    start_tag_attribute_spec(tag_name, attribute) + text + end_tag_spec(tag_name)
}

pub(crate) fn start_tag(s: &mut String, tag_name: &str)
    ensures
        final(s)@ == old(s)@ + start_tag_spec(tag_name@),
{
    push_char(s, '<');
    s.append(tag_name);
    push_char(s, '>');
    proof {
        assert(s@ =~= old(s)@ + start_tag_spec(tag_name@));
    }
}

pub(crate) fn start_tag_attribute(s: &mut String, tag_name: &str, attribute: &str)
    ensures
        final(s)@ == old(s)@ + start_tag_attribute_spec(tag_name@, attribute@),
{
    push_char(s, '<');
    s.append(tag_name);
    if attribute.unicode_len() > 0 {
        if attribute.get_char(0) != ' ' {
            push_char(s, ' ');
        }
        s.append(attribute);
    }
    push_char(s, '>');
    proof {
        assert(s@ =~= old(s)@ + start_tag_attribute_spec(tag_name@, attribute@));
    }
}

pub(crate) fn end_tag(s: &mut String, tag_name: &str)
    ensures
        final(s)@ == old(s)@ + end_tag_spec(tag_name@),
{
    push_char(s, '<');
    push_char(s, '/');
    s.append(tag_name);
    push_char(s, '>');
    proof {
        assert(s@ =~= old(s)@ + end_tag_spec(tag_name@));
    }
}

/// Append one attribute, `name="values joined by spaces"`.
pub(crate) fn add_attribute(s: &mut String, attribute_name: &str, attribute_value: &[String])
    ensures
        final(s)@ == old(s)@ + add_attribute_spec(
            attribute_name@,
            crate::contents::strs_view(attribute_value@),
        ),
{
    push_char(s, ' ');
    s.append(attribute_name);
    push_char(s, '=');
    push_char(s, '"');
    let ghost vals = crate::contents::strs_view(attribute_value@);
    let mut i: usize = 0;
    while i < attribute_value.len()
        invariant
            i <= attribute_value@.len(),
            vals == crate::contents::strs_view(attribute_value@),
            vals.len() == attribute_value@.len(),
            s@ == old(s)@ + seq![' '] + attribute_name@ + seq!['=', '"'] + attr_join(
                vals.take(i as int),
            ),
        decreases attribute_value@.len() - i,
    {
        if i > 0 {
            push_char(s, ' ');
        }
        s.append(attribute_value[i].as_str());
        proof {
            assert(vals.take(i + 1).drop_last() =~= vals.take(i as int));
            assert(vals.take(i + 1).last() == vals[i as int]);
            assert(vals[i as int] == attribute_value@[i as int]@);
            if i == 0 {
                assert(attr_join(vals.take(1)) == vals[0]);
                assert(s@ =~= old(s)@ + seq![' '] + attribute_name@ + seq!['=', '"'] + attr_join(
                    vals.take(i + 1),
                ));
            } else {
                assert(s@ =~= old(s)@ + seq![' '] + attribute_name@ + seq!['=', '"'] + attr_join(
                    vals.take(i + 1),
                ));
            }
        }
        i += 1;
    }
    proof {
        assert(vals.take(vals.len() as int) =~= vals);
    }
    push_char(s, '"');
    proof {
        assert(s@ =~= old(s)@ + add_attribute_spec(attribute_name@, vals));
    }
}

/// Append `<name>text</name>`.
pub(crate) fn add_tag(s: &mut String, tag_name: &str, text: &str)
    ensures
        final(s)@ == old(s)@ + add_tag_spec(tag_name@, text@),
{
    start_tag(s, tag_name);
    if !text.is_empty() {
        s.append(text);
    }
    end_tag(s, tag_name);
    proof {
        assert(s@ =~= old(s)@ + add_tag_spec(tag_name@, text@));
    }
}

/// Append `<name attributes>text</name>`.
pub(crate) fn add_tag_with_attribute(s: &mut String, tag_name: &str, attribute: &str, text: &str)
    ensures
        final(s)@ == old(s)@ + add_tag_with_attribute_spec(tag_name@, attribute@, text@),
{
    start_tag_attribute(s, tag_name, attribute);
    if !text.is_empty() {
        s.append(text);
    }
    end_tag(s, tag_name);
    proof {
        assert(s@ =~= old(s)@ + add_tag_with_attribute_spec(tag_name@, attribute@, text@));
    }
}

} // verus!
