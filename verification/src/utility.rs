//! Edge labels and the rule that decides whether two of them fit together.

use vstd::prelude::*;
use vstd::string::*;

verus! {

/// Two edge labels are compatible when one reads as the other backwards.
pub open spec fn compatible(a: Seq<char>, b: Seq<char>) -> bool {
    a == b.reverse()
}

/// Compatibility is mutual: `a` mates with `b` exactly when `b` mates with
/// `a`, because reading a label backwards twice gives the label back.
pub proof fn lemma_compatible_mutual(a: Seq<char>, b: Seq<char>)
    ensures
        compatible(a, b) == compatible(b, a),
{
    assert(a.reverse().reverse() =~= a);
    assert(b.reverse().reverse() =~= b);
}

/// A label is a palindrome when it reads the same from both ends.
pub open spec fn palindrome(a: Seq<char>) -> bool {
    forall|i: int| 0 <= i < a.len() ==> #[trigger] a[i] == a[a.len() - 1 - i]
}

/// A label mates with itself exactly when it is a palindrome.
pub proof fn lemma_compatible_with_itself(a: Seq<char>)
    ensures
        compatible(a, a) <==> palindrome(a),
{
    if palindrome(a) {
        assert(a =~= a.reverse());
    }
    if compatible(a, a) {
        assert forall|i: int| 0 <= i < a.len() implies #[trigger] a[i] == a[a.len() - 1 - i] by {
            assert(a[i] == a.reverse()[i]);
        }
    }
}

/// The characters of `s` in opposite order.
///
/// Each character is looked up by its position, which takes time in the
/// length of `s`; edge labels are a few characters long.
pub fn reverse_string(s: &str) -> (r: String)
    ensures
        r@ == s@.reverse(),
{
    let n = s.unicode_len();
    let mut r = String::new();
    let mut i: usize = n;
    while i > 0
        invariant
            n == s@.len(),
            i <= n,
            r@ == s@.reverse().subrange(0, n - i),
        decreases i,
    {
        i = i - 1;
        r.append(s.substring_char(i, i + 1));
    }
    r
}

/// Whether edge `a` mates with edge `b`: `a` must be `b` read backwards.
pub fn compare_edge(a: &str, b: &str) -> (r: bool)
    ensures
        r == compatible(a@, b@),
{
    let reversed = reverse_string(b);
    let own = String::from_str(a);
    own == reversed
}

} // verus!
