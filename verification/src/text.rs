//! Text helpers: the characters of a string, and message templates.

use vstd::prelude::*;

verus! {

/// `String::push` appends one character at the end and changes nothing else.
pub assume_specification[ String::push ](s: &mut String, c: char)
    ensures
        final(s)@ == old(s)@.push(c),
;

/// The characters of `s`, in order.
pub fn chars_of(s: &str) -> (chars: Vec<char>)
    ensures
        chars@ == s@,
{
    let mut chars: Vec<char> = Vec::new();
    for c in it: s.chars()
        invariant
            chars@ == it.seq().take(it.index()),
            it.seq() == s@,
    {
        chars.push(c);
    }
    chars
}

/// The marker that a message template carries where the matched name goes.
pub open spec fn placeholder() -> Seq<char> {
    seq!['{', 'n', 'a', 'm', 'e', '}']
}

/// `template` with every placeholder, taken from left to right, replaced by
/// `name`. Text that was put in is not looked at again.
pub open spec fn rendered(template: Seq<char>, name: Seq<char>) -> Seq<char>
    decreases template.len(),
{
    if template.len() == 0 {
        Seq::empty()
    } else if placeholder().is_prefix_of(template) {
        name + rendered(template.skip(6), name)
    } else {
        seq![template[0]] + rendered(template.skip(1), name)
    }
}

/// Whether the placeholder stands in `chars` at position `at`.
fn placeholder_at(chars: &Vec<char>, at: usize) -> (found: bool)
    requires
        at <= chars@.len(),
    ensures
        found == placeholder().is_prefix_of(chars@.skip(at as int)),
{
    let found = chars.len() - at >= 6 && chars[at] == '{' && chars[at + 1] == 'n' && chars[at + 2]
        == 'a' && chars[at + 3] == 'm' && chars[at + 4] == 'e' && chars[at + 5] == '}';
    proof {
        let rest = chars@.skip(at as int);
        let mark = placeholder();
        if found {
            assert(rest.subrange(0, 6) =~= mark);
        }
        if mark.is_prefix_of(rest) {
            assert(rest.subrange(0, 6) == mark);
            assert(rest[0] == mark[0]);
            assert(rest[1] == mark[1]);
            assert(rest[2] == mark[2]);
            assert(rest[3] == mark[3]);
            assert(rest[4] == mark[4]);
            assert(rest[5] == mark[5]);
        }
    }
    found
}

/// Fills a message template: every `{name}` in it becomes `name`.
pub fn render_message(template: &str, name: &str) -> (message: String)
    ensures
        message@ == rendered(template@, name@),
{
    let chars = chars_of(template);
    let inserted = chars_of(name);
    let mut message = String::new();
    let mut at: usize = 0;
    proof {
        assert(chars@.skip(0) =~= chars@);
    }
    while at < chars.len()
        invariant
            at <= chars@.len(),
            chars@ == template@,
            inserted@ == name@,
            message@ + rendered(chars@.skip(at as int), name@) == rendered(template@, name@),
        decreases chars@.len() - at,
    {
        let ghost rest = chars@.skip(at as int);
        let ghost so_far = message@;
        if placeholder_at(&chars, at) {
            let mut k: usize = 0;
            while k < inserted.len()
                invariant
                    k <= inserted@.len(),
                    message@ == so_far + inserted@.take(k as int),
                decreases inserted@.len() - k,
            {
                message.push(inserted[k]);
                k += 1;
                proof {
                    assert(inserted@.take(k as int) =~= inserted@.take(k - 1).push(
                        inserted@[k - 1],
                    ));
                }
            }
            at += 6;
            proof {
                assert(inserted@.take(k as int) =~= name@);
                assert(rest.skip(6) =~= chars@.skip(at as int));
                assert(so_far + (name@ + rendered(rest.skip(6), name@)) =~= (so_far + name@)
                    + rendered(rest.skip(6), name@));
            }
        } else {
            message.push(chars[at]);
            at += 1;
            proof {
                assert(rest.skip(1) =~= chars@.skip(at as int));
                assert(so_far + (seq![rest[0]] + rendered(rest.skip(1), name@)) =~= so_far.push(
                    rest[0],
                ) + rendered(rest.skip(1), name@));
            }
        }
    }
    proof {
        assert(chars@.skip(at as int) =~= Seq::<char>::empty());
        assert(message@ + Seq::<char>::empty() =~= message@);
    }
    message
}

} // verus!
