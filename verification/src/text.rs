//! Text that the battle shows: names compared, placeholders filled in.
use vstd::prelude::*;

verus! {

/// `s` with every `{}` replaced by `name`, read left to right.
pub open spec fn filled(s: Seq<char>, name: Seq<char>) -> Seq<char>
    decreases s.len(),
{
    if s.len() == 0 {
        Seq::empty()
    } else if s.len() >= 2 && s[0] == '{' && s[1] == '}' {
        name + filled(s.skip(2), name)
    } else {
        seq![s[0]] + filled(s.skip(1), name)
    }
}

/// Whether `s` holds `{}` somewhere.
pub open spec fn has_placeholder(s: Seq<char>) -> bool {
    exists|i: int| 0 <= i < s.len() - 1 && #[trigger] s[i] == '{' && s[i + 1] == '}'
}

/// A text without `{}` comes back unchanged.
pub proof fn lemma_filled_without_placeholder(s: Seq<char>, name: Seq<char>)
    requires
        !has_placeholder(s),
    ensures
        filled(s, name) == s,
    decreases s.len(),
{
    if s.len() > 0 {
        let t = s.skip(1);
        assert forall|i: int| 0 <= i < t.len() - 1 implies !(#[trigger] t[i] == '{' && t[i + 1] == '}') by {
            assert(t[i] == s[i + 1] && t[i + 1] == s[i + 2]);
        }
        lemma_filled_without_placeholder(t, name);
        assert(s.len() >= 2 ==> !(s[0] == '{' && s[1] == '}'));
        assert(seq![s[0]] + t =~= s);
    }
}

/// Whether a string holds the same text as a string slice.
pub fn same_text(a: &String, b: &str) -> (r: bool)
    ensures
        r == (a@ == b@),
{
    let b_owned = String::from_str(b);
    *a == b_owned
}

/// The message with every `{}` replaced by the name, as `str::replace` does.
pub fn fill_placeholder(message: &String, name: &String) -> (r: String)
    ensures
        r@ == filled(message@, name@),
{
    let m = message.as_str();
    let n = m.unicode_len();
    let mut out = String::new();
    let mut i: usize = 0;
    proof {
        assert(message@.skip(0) == message@);
    }
    while i < n
        invariant
            n == message@.len(),
            m@ == message@,
            i <= n,
            filled(message@, name@) == out@ + filled(message@.skip(i as int), name@),
        decreases n - i,
    {
        let ghost rest = message@.skip(i as int);
        let c = m.get_char(i);
        if c == '{' && i + 1 < n && m.get_char(i + 1) == '}' {
            out.append(name.as_str());
            proof {
                assert(rest.skip(2) == message@.skip(i + 2));
            }
            i = i + 2;
        } else {
            let one = m.substring_char(i, i + 1);
            out.append(one);
            proof {
                assert(rest.skip(1) == message@.skip(i + 1));
                assert(one@ == seq![rest[0]]);
            }
            i = i + 1;
        }
    }
    proof {
        assert(message@.skip(n as int) == Seq::<char>::empty());
        assert(out@ + Seq::<char>::empty() == out@);
    }
    out
}

/// The name followed by the given text.
pub fn name_then(name: &String, tail: &str) -> (r: String)
    ensures
        r@ == name@ + tail@,
{
    let mut r = name.clone();
    r.append(tail);
    r
}

} // verus!
