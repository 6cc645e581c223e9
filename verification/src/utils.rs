//! Small helpers over sequences, options and strings.
use vstd::prelude::*;

verus! {

/// `len` elements of `items` moved `shift` places forward, those past the
/// end coming round to the beginning: element `j` of the result is element
/// `(j - shift) mod n` of `items`, so element `i` of `items` lands at
/// `(i + shift) mod n`. Nothing when `items` is empty.
pub open spec fn rotated<T>(items: Seq<T>, shift: int, len: int) -> Seq<T> {
    if items.len() == 0 {
        Seq::empty()
    } else {
        Seq::new(len as nat, |j: int| items[(j - shift) % (items.len() as int)])
    }
}

/// Rotates `items` by moving each element `shift` positions forward; the
/// elements that would fall past the end come round to the beginning. The
/// result has `len` elements, going round `items` as many times as needed.
pub fn rotate_iter<T: Copy>(items: &[T], shift: usize, len: usize) -> (r: Vec<T>)
    ensures
        r@ == rotated(items@, shift as int, len as int),
        items@.len() > 0 ==> r@.len() == len,
        items@.len() == len ==> forall|i: int| 0 <= i < len ==> #[trigger] r@[(i + shift) % (len as int)] == items@[i],
{
    let n = items.len();
    let mut r: Vec<T> = Vec::new();
    if n == 0 {
        assert(r@ =~= rotated(items@, shift as int, len as int));
        return r;
    }
    let s = shift % n;
    let mut pos: usize = if s == 0 { 0 } else { n - s };
    proof {
        let x = 0 - shift as int;
        vstd::arithmetic::div_mod::lemma_fundamental_div_mod(shift as int, n as int);
        let q = (shift as int) / (n as int);
        assert(shift as int == (n as int) * q + s);
        if s == 0 {
            assert(x == (n as int) * (-q) + 0) by (nonlinear_arith)
                requires shift as int == (n as int) * q + s, s == 0, x == 0 - shift as int;
            vstd::arithmetic::div_mod::lemma_mod_multiples_vanish(-q, 0, n as int);
            vstd::arithmetic::div_mod::lemma_small_mod(0, n as nat);
        } else {
            assert(x == (n as int) * (-q - 1) + (n - s)) by (nonlinear_arith)
                requires shift as int == (n as int) * q + s, x == 0 - shift as int;
            vstd::arithmetic::div_mod::lemma_mod_multiples_vanish(-q - 1, (n - s) as int, n as int);
            vstd::arithmetic::div_mod::lemma_small_mod((n - s) as nat, n as nat);
        }
    }
    let mut i: usize = 0;
    while i < len
        invariant
            n == items@.len(),
            n > 0,
            i <= len,
            pos < n,
            pos as int == (i as int - shift as int) % (n as int),
            r@.len() == i,
            forall|t: int| 0 <= t < i ==> #[trigger] r@[t] == items@[(t - shift as int) % (n as int)],
        decreases len - i,
    {
        r.push(items[pos]);
        proof {
            let x = i as int - shift as int;
            let q = x / (n as int);
            vstd::arithmetic::div_mod::lemma_fundamental_div_mod(x, n as int);
            assert(x + 1 == (n as int) * q + (pos + 1));
            vstd::arithmetic::div_mod::lemma_mod_multiples_vanish(q, pos + 1, n as int);
            if pos + 1 < n {
                vstd::arithmetic::div_mod::lemma_small_mod((pos + 1) as nat, n as nat);
            } else {
                vstd::arithmetic::div_mod::lemma_mod_multiples_vanish(q + 1, 0, n as int);
                assert((n as int) * (q + 1) + 0 == (n as int) * q + (pos + 1)) by (nonlinear_arith)
                    requires pos + 1 == n;
            }
        }
        pos = if pos + 1 == n {
            0
        } else {
            pos + 1
        };
        i += 1;
    }
    assert(r@ =~= rotated(items@, shift as int, len as int));
    proof {
        if n == len {
            assert forall|i: int| 0 <= i < len implies #[trigger] r@[(i + shift) % (len as int)] == items@[i] by {
                let j = (i + shift) % (len as int);
                vstd::arithmetic::div_mod::lemma_fundamental_div_mod(i + shift, len as int);
                let q = (i + shift) / (len as int);
                assert(j - shift == (len as int) * q * (-1) + i) by (nonlinear_arith)
                    requires i + shift == (len as int) * q + j;
                assert((len as int) * q * (-1) == (len as int) * (-q)) by (nonlinear_arith);
                vstd::arithmetic::div_mod::lemma_mod_multiples_vanish(-q, i, len as int);
                vstd::arithmetic::div_mod::lemma_small_mod(i as nat, len as nat);
            }
        }
    }
    r
}

/// The pieces joined with `sep` between each two.
pub open spec fn joined(parts: Seq<Seq<char>>, sep: Seq<char>) -> Seq<char>
    decreases parts.len(),
{
    if parts.len() == 0 {
        Seq::empty()
    } else if parts.len() == 1 {
        parts[0]
    } else {
        joined(parts.drop_last(), sep) + sep + parts.last()
    }
}

/// Joins the strings with `sep` between each two.
pub fn join_str(items: &[String], sep: &str) -> (r: String)
    ensures
        r@ == joined(items@.map_values(|s: String| s@), sep@),
{
    let ghost parts = items@.map_values(|s: String| s@);
    let mut s = String::new();
    let mut first = true;
    let mut i: usize = 0;
    while i < items.len()
        invariant
            parts == items@.map_values(|s: String| s@),
            i <= items@.len(),
            first == (i == 0),
            s@ == joined(parts.take(i as int), sep@),
        decreases items@.len() - i,
    {
        assert(parts.take(i + 1).drop_last() =~= parts.take(i as int));
        assert(parts.take(i + 1).last() == items@[i as int]@);
        if !first {
            s.append(sep);
        }
        first = false;
        s.append(items[i].as_str());
        proof {
            if i == 0 {
                assert(parts.take(1) =~= seq![items@[0]@]);
                assert(s@ =~= joined(parts.take(1), sep@));
            } else {
                assert(s@ =~= joined(parts.take(i + 1), sep@));
            }
        }
        i += 1;
    }
    assert(parts.take(items@.len() as int) =~= parts);
    s
}

/// Extra queries on options.
pub trait OptionExt<T> {
    /// The option this value is.
    spec fn option_view(&self) -> Option<T>;

    fn as_option(&self) -> (r: &Option<T>)
        ensures
            *r == self.option_view(),
    ;

    /// Whether the option holds a value that `f` accepts.
    fn is_some_and_<F: FnOnce(&T) -> bool>(&self, f: F) -> (r: bool)
        requires
            forall|x: &T| f.requires((x,)),
        ensures
            match self.option_view() {
                Some(x) => f.ensures((&x,), r),
                None => r == false,
            },
    {
        match self.as_option() {
            Some(x) => f(x),
            None => false,
        }
    }

    /// Whether the option is empty or holds a value that `f` accepts.
    fn is_none_or_<F: FnOnce(&T) -> bool>(&self, f: F) -> (r: bool)
        requires
            forall|x: &T| f.requires((x,)),
        ensures
            match self.option_view() {
                Some(x) => f.ensures((&x,), r),
                None => r == true,
            },
    {
        match self.as_option() {
            Some(x) => f(x),
            None => true,
        }
    }
}

impl<T> OptionExt<T> for Option<T> {
    open spec fn option_view(&self) -> Option<T> {
        *self
    }

    fn as_option(&self) -> (r: &Option<T>) {
        self
    }
}

} // verus!
