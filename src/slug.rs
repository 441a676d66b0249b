use vstd::prelude::*;

verus! {

/// What `str::to_lowercase` returns for a string of these characters.
pub uninterp spec fn lower_of(s: Seq<char>) -> Seq<char>;

/// `s` with each occurrence of the character `c` replaced by `t`, left to right.
pub open spec fn replace_char(s: Seq<char>, c: char, t: Seq<char>) -> Seq<char>
    decreases s.len(),
{
    if s.len() == 0 {
        Seq::<char>::empty()
    } else {
        let head = if s[0] == c {
            t
        } else {
            seq![s[0]]
        };
        head + replace_char(s.subrange(1, s.len() as int), c, t)
    }
}

/// The slug of a display name: lower case, periods removed, spaces turned into underscores.
pub open spec fn slug_spec(name: Seq<char>) -> Seq<char> {
    replace_char(replace_char(lower_of(name), '.', Seq::<char>::empty()), ' ', seq!['_'])
}

/// Relies on `str::to_lowercase`: the result depends on the characters of `s` alone.
#[verifier::external_body]
fn lowercase(s: &str) -> (r: String)
    ensures
        r@ == lower_of(s@),
{
    s.to_lowercase()
}

/// Relies on `str::replace` with a one-character pattern: every occurrence of
/// `c` in `s` is replaced by `t`, the other characters are kept in order.
#[verifier::external_body]
fn replace(s: &str, c: char, t: &str) -> (r: String)
    ensures
        r@ == replace_char(s@, c, t@),
{
    s.replace(c, t)
}

/// Derives the slug of a display name ("John F. Kennedy" gives "john_f_kennedy").
pub fn slug_of(name: &str) -> (r: String)
    ensures
        r@ == slug_spec(name@),
{
    proof {
        reveal_strlit("");
        reveal_strlit("_");
        assert(""@ =~= Seq::<char>::empty());
        assert("_"@ =~= seq!['_']);
    }
    let lower = lowercase(name);
    let stripped = replace(lower.as_str(), '.', "");
    replace(stripped.as_str(), ' ', "_")
}

} // verus!
