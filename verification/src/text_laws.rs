//! The order of texts and numbers in digits.

use vstd::prelude::*;
use crate::text;

verus! {

/// A text stands before another where it is its beginning, or where at the
/// first place at which they differ its character has the smaller code.
pub open spec fn comes_first(a: Seq<char>, b: Seq<char>) -> bool {
    ||| a.len() <= b.len() && forall|i: int| 0 <= i < a.len() ==> #[trigger] a[i] == b[i]
    ||| exists|k: int|
        {
            &&& 0 <= k < a.len()
            &&& k < b.len()
            &&& (#[trigger] a[k] as int) < b[k] as int
            &&& forall|i: int| 0 <= i < k ==> #[trigger] a[i] == b[i]
        }
}

/// The order of texts goes by the codes of their characters, from the first
/// one on.
pub proof fn law_the_order_of_texts(a: Seq<char>, b: Seq<char>)
    ensures
        text::text_le(a, b) <==> comes_first(a, b),
    decreases a.len(),
{
    if a.len() > 0 && b.len() > 0 {
        let c = a.skip(1);
        let d = b.skip(1);
        law_the_order_of_texts(c, d);
        if a[0] == b[0] {
            if comes_first(c, d) {
                if c.len() <= d.len() && forall|i: int| 0 <= i < c.len() ==> #[trigger] c[i] == d[i] {
                    assert forall|i: int| 0 <= i < a.len() implies #[trigger] a[i] == b[i] by {
                        if i > 0 {
                            assert(c[i - 1] == d[i - 1]);
                        }
                    }
                } else {
                    let k = choose|k: int|
                        {
                            &&& 0 <= k < c.len()
                            &&& k < d.len()
                            &&& (#[trigger] c[k] as int) < d[k] as int
                            &&& forall|i: int| 0 <= i < k ==> #[trigger] c[i] == d[i]
                        };
                    assert(a[k + 1] == c[k]);
                    assert forall|i: int| 0 <= i < k + 1 implies #[trigger] a[i] == b[i] by {
                        if i > 0 {
                            assert(c[i - 1] == d[i - 1]);
                        }
                    }
                }
            }
            if comes_first(a, b) {
                if a.len() <= b.len() && forall|i: int| 0 <= i < a.len() ==> #[trigger] a[i] == b[i] {
                    assert forall|i: int| 0 <= i < c.len() implies #[trigger] c[i] == d[i] by {
                        assert(a[i + 1] == b[i + 1]);
                    }
                } else {
                    let k = choose|k: int|
                        {
                            &&& 0 <= k < a.len()
                            &&& k < b.len()
                            &&& (#[trigger] a[k] as int) < b[k] as int
                            &&& forall|i: int| 0 <= i < k ==> #[trigger] a[i] == b[i]
                        };
                    assert(c[k - 1] == a[k]);
                    assert forall|i: int| 0 <= i < k - 1 implies #[trigger] c[i] == d[i] by {
                        assert(a[i + 1] == b[i + 1]);
                    }
                }
            }
        } else {
            if comes_first(a, b) {
                assert(!(forall|i: int| 0 <= i < a.len() ==> #[trigger] a[i] == b[i])) by {
                    if forall|i: int| 0 <= i < a.len() ==> #[trigger] a[i] == b[i] {
                        assert(a[0] == b[0]);
                    }
                }
                let k = choose|k: int|
                    {
                        &&& 0 <= k < a.len()
                        &&& k < b.len()
                        &&& (#[trigger] a[k] as int) < b[k] as int
                        &&& forall|i: int| 0 <= i < k ==> #[trigger] a[i] == b[i]
                    };
                if k > 0 {
                    assert(a[0] == b[0]);
                }
            }
            if (a[0] as int) < b[0] as int {
                assert(comes_first(a, b));
            }
        }
    }
}

/// Of two texts one stands before the other, and both only where they are the
/// same.
pub proof fn law_texts_can_be_ordered(a: Seq<char>, b: Seq<char>)
    ensures
        text::text_le(a, b) || text::text_le(b, a),
        text::text_le(a, b) && text::text_le(b, a) ==> a == b,
    decreases a.len(),
{
    if a.len() > 0 && b.len() > 0 {
        law_texts_can_be_ordered(a.skip(1), b.skip(1));
        if a[0] == b[0] && text::text_le(a, b) && text::text_le(b, a) {
            assert(a =~= seq![a[0]] + a.skip(1));
            assert(b =~= seq![b[0]] + b.skip(1));
        }
    } else if a.len() == 0 && b.len() == 0 {
        assert(a =~= b);
    }
}

/// The number that digits stand for.
pub open spec fn value_of(digits: Seq<char>) -> int
    decreases digits.len(),
{
    if digits.len() == 0 {
        0
    } else {
        10 * value_of(digits.drop_last()) + (digits.last() as int - 0x30)
    }
}

/// A number in digits: they stand for it, and none leads without need.
pub proof fn law_numbers_in_digits(n: nat)
    ensures
        value_of(text::decimal_text(n)) == n,
        text::decimal_text(n).len() > 0,
        forall|i: int|
            0 <= i < text::decimal_text(n).len() ==> 0x30 <= (#[trigger] text::decimal_text(
                n,
            )[i]) as int <= 0x39,
        n > 0 ==> text::decimal_text(n)[0] as int != 0x30,
        n == 0 ==> text::decimal_text(n).len() == 1,
    decreases n,
{
    let digits = text::decimal_text(n);
    if n < 10 {
        assert(digits.drop_last() =~= Seq::empty());
        assert(value_of(digits.drop_last()) == 0);
    } else {
        law_numbers_in_digits(n / 10);
        assert(digits.drop_last() =~= text::decimal_text(n / 10));
        assert(digits[0] == text::decimal_text(n / 10)[0]);
    }
}

} // verus!
