use vstd::prelude::*;
use vstd::string::{StrSliceExecFns, StringExecFns};

verus! {

/// Whether `c` is one of the separators that graph node names use.
pub open spec fn is_separator(c: char) -> bool {
    c == '/' || c == ':' || c == '.'
}

/// `s` with every separator (`/`, `:`, `.`) replaced by `_`.
pub open spec fn sanitized(s: Seq<char>) -> Seq<char> {
    s.map_values(|c: char| if is_separator(c) { '_' } else { c })
}

/// Turns a graph node name into a valid identifier by replacing each `/`,
/// `:` and `.` with `_`; every other character is kept.
pub fn sanitize_ident_name(name: &str) -> (r: String)
    ensures
        r@ == sanitized(name@),
{
    let n = name.unicode_len();
    let mut r = String::new();
    let mut i: usize = 0;
    while i < n
        invariant
            n == name@.len(),
            i <= n,
            r@ == sanitized(name@.subrange(0, i as int)),
        decreases n - i,
    {
        let c = name.get_char(i);
        if c == '/' || c == ':' || c == '.' {
            proof { reveal_strlit("_"); }
            r.append("_");
        } else {
            r.append(name.substring_char(i, i + 1));
        }
        assert(sanitized(name@.subrange(0, i + 1)) =~= sanitized(name@.subrange(0, i as int)) + sanitized(
            name@.subrange(i as int, i + 1),
        ));
        assert(r@ =~= sanitized(name@.subrange(0, i + 1)));
        i = i + 1;
    }
    assert(name@.subrange(0, n as int) =~= name@);
    r
}

/// Sanitation is idempotent: a sanitized name has no separator left.
pub proof fn lemma_sanitize_idempotent(s: Seq<char>)
    ensures
        sanitized(sanitized(s)) == sanitized(s),
{
    assert(sanitized(sanitized(s)) =~= sanitized(s));
}

} // verus!
