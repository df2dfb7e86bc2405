use vstd::prelude::*;

verus! {

/// The player's score.
#[derive(Clone, Copy, PartialEq, Eq, Structural, Debug)]
pub struct Score(pub u64);

impl Default for Score {
    fn default() -> (r: Self)
        ensures
            r.0 == 0,
    {
        Self(0)
    }
}

/// The points each thing is worth.
#[derive(Clone, Copy, PartialEq, Eq, Structural, Debug)]
pub struct PointValues {
    pub dot: u64,
    pub power_up: u64,
    pub first_ghost: u64,
    pub second_ghost: u64,
    pub third_ghost: u64,
    pub fourth_ghost: u64,
    pub cherry: u64,
    pub strawberry: u64,
    pub orange: u64,
    pub apple: u64,
    pub melon: u64,
    pub flagship: u64,
    pub bell: u64,
    pub key: u64,
}

impl Default for PointValues {
    fn default() -> (r: Self)
        ensures
            r == (PointValues {
                dot: 10,
                power_up: 50,
                first_ghost: 200,
                second_ghost: 400,
                third_ghost: 800,
                fourth_ghost: 1600,
                cherry: 100,
                strawberry: 300,
                orange: 500,
                apple: 700,
                melon: 1000,
                flagship: 2000,
                bell: 3000,
                key: 5000,
            }),
    {
        Self {
            dot: 10,
            power_up: 50,
            first_ghost: 200,
            second_ghost: 400,
            third_ghost: 800,
            fourth_ghost: 1600,
            cherry: 100,
            strawberry: 300,
            orange: 500,
            apple: 700,
            melon: 1000,
            flagship: 2000,
            bell: 3000,
            key: 5000,
        }
    }
}

/// What the ghost eaten as number `chain` (counting from 0) since the last
/// power-up is worth: the first three have their own values, every later
/// one the fourth's.
pub open spec fn spec_chain_value(v: PointValues, chain: int) -> u64 {
    if chain == 0 {
        v.first_ghost
    } else if chain == 1 {
        v.second_ghost
    } else if chain == 2 {
        v.third_ghost
    } else {
        v.fourth_ghost
    }
}

/// What the ghost eaten as number `chain` since the last power-up is worth.
pub fn chain_value(v: &PointValues, chain: u8) -> (r: u64)
    ensures
        r == spec_chain_value(*v, chain as int),
{
    match chain {
        0 => v.first_ghost,
        1 => v.second_ghost,
        2 => v.third_ghost,
        _ => v.fourth_ghost,
    }
}

impl Score {
    /// Adds `points` to the score.  Fails, leaving the score as it was, when
    /// the sum does not fit in a `u64`.
    pub fn add_points(&mut self, points: u64) -> (ok: bool)
        ensures
            ok <==> old(self).0 + points <= u64::MAX,
            ok ==> final(self).0 == old(self).0 + points,
            !ok ==> *final(self) == *old(self),
    {
        match self.0.checked_add(points) {
            Some(s) => {
                self.0 = s;
                true
            },
            None => false,
        }
    }

    /// Sets the score back to zero.
    pub fn reset(&mut self)
        ensures
            final(self).0 == 0,
    {
        self.0 = 0;
    }
}

/// The character of the decimal digit `d`.
pub open spec fn digit_char(d: int) -> char {
    ('0' as int + d) as char
}

/// The decimal numeral of `n`, without leading zeros.
pub open spec fn decimal(n: nat) -> Seq<char>
    decreases n,
{
    if n < 10 {
        seq![digit_char(n as int)]
    } else {
        decimal(n / 10).push(digit_char((n % 10) as int))
    }
}

fn digit_str(d: u64) -> (r: &'static str)
    requires
        d < 10,
    ensures
        r@ == seq![digit_char(d as int)],
{
    proof {
        reveal_strlit("0");
        reveal_strlit("1");
        reveal_strlit("2");
        reveal_strlit("3");
        reveal_strlit("4");
        reveal_strlit("5");
        reveal_strlit("6");
        reveal_strlit("7");
        reveal_strlit("8");
        reveal_strlit("9");
    }
    match d {
        0 => "0",
        1 => "1",
        2 => "2",
        3 => "3",
        4 => "4",
        5 => "5",
        6 => "6",
        7 => "7",
        8 => "8",
        _ => "9",
    }
}

impl Score {
    /// The text shown for the score: `Score: ` and the score in decimal.
    pub fn label(&self) -> (r: String)
        ensures
            r@ == "Score: "@ + decimal(self.0 as nat),
    {
        let n = self.0;
        let mut digits: Vec<u64> = Vec::new();
        digits.push(n % 10);
        let mut m = n / 10;
        proof {
            assert(digits@.reverse() =~= seq![n % 10]);
            assert(digits@.reverse().map_values(|d: u64| digit_char(d as int)) =~= seq![digit_char((n % 10) as int)]);
            if n >= 10 {
                assert(decimal(n as nat) == decimal(m as nat).push(digit_char((n % 10) as int)));
                assert(decimal(m as nat).push(digit_char((n % 10) as int)) =~= decimal(m as nat) + seq![
                    digit_char((n % 10) as int),
                ]);
            }
        }
        while m > 0
            invariant
                forall|k: int| 0 <= k < digits@.len() ==> #[trigger] digits@[k] < 10,
                decimal(n as nat) == (if m == 0 {
                    Seq::<char>::empty()
                } else {
                    decimal(m as nat)
                }) + digits@.reverse().map_values(|d: u64| digit_char(d as int)),
            decreases m,
        {
            let ghost old_digits = digits@;
            let ghost old_m = m;
            digits.push(m % 10);
            m = m / 10;
            proof {
                let dig = digit_char((old_m % 10) as int);
                let tail = old_digits.reverse().map_values(|d: u64| digit_char(d as int));
                assert(digits@.reverse() =~= seq![old_m % 10] + old_digits.reverse());
                assert(digits@.reverse().map_values(|d: u64| digit_char(d as int)) =~= seq![dig] + tail);
                if old_m < 10 {
                    assert(decimal(old_m as nat) == seq![digit_char(old_m as int)]);
                    assert(m == 0);
                    assert(Seq::<char>::empty() + (seq![dig] + tail) =~= seq![dig] + tail);
                } else {
                    assert(decimal(old_m as nat) == decimal(m as nat).push(dig));
                    assert(decimal(m as nat).push(dig) + tail =~= decimal(m as nat) + (seq![dig] + tail));
                }
            }
        }
        proof {
            assert(Seq::<char>::empty() + digits@.reverse().map_values(|d: u64| digit_char(d as int))
                =~= digits@.reverse().map_values(|d: u64| digit_char(d as int)));
        }
        let mut r = "Score: ".to_owned();
        let mut k = digits.len();
        while k > 0
            invariant
                k <= digits@.len(),
                forall|t: int| 0 <= t < digits@.len() ==> #[trigger] digits@[t] < 10,
                r@ == "Score: "@ + digits@.subrange(k as int, digits@.len() as int).reverse().map_values(
                    |d: u64| digit_char(d as int),
                ),
            decreases k,
        {
            k = k - 1;
            let ghost old_r = r@;
            r.append(digit_str(digits[k]));
            proof {
                let a = digits@.subrange(k as int, digits@.len() as int).reverse();
                let b = digits@.subrange(k as int + 1, digits@.len() as int).reverse();
                assert(a =~= b.push(digits@[k as int]));
                assert(a.map_values(|d: u64| digit_char(d as int)) =~= b.map_values(|d: u64| digit_char(d as int)).push(
                    digit_char(digits@[k as int] as int),
                ));
            }
        }
        proof {
            assert(digits@.subrange(0, digits@.len() as int) =~= digits@);
        }
        r
    }
}

/// The number that a string of decimal digits stands for.
pub open spec fn numeral_value(s: Seq<char>) -> int
    decreases s.len(),
{
    if s.len() == 0 {
        0
    } else {
        numeral_value(s.drop_last()) * 10 + (s.last() as int - '0' as int)
    }
}

/// The score's numeral is made of decimal digits, starts with no zero
/// unless the score is zero, and reads back as the score.
pub proof fn law_decimal_reads_back(n: nat)
    ensures
        decimal(n).len() >= 1,
        forall|k: int| 0 <= k < decimal(n).len() ==> '0' <= #[trigger] decimal(n)[k] <= '9',
        n > 0 ==> decimal(n)[0] != '0',
        numeral_value(decimal(n)) == n,
    decreases n,
{
    if n < 10 {
        assert(numeral_value(decimal(n).drop_last()) == 0) by {
            assert(decimal(n).drop_last() =~= Seq::<char>::empty());
        }
    } else {
        law_decimal_reads_back(n / 10);
        let d = decimal(n / 10);
        let c = digit_char((n % 10) as int);
        assert(decimal(n) == d.push(c));
        assert(decimal(n).drop_last() =~= d);
        assert(decimal(n)[0] == d[0]);
        assert forall|k: int| 0 <= k < decimal(n).len() implies '0' <= #[trigger] decimal(n)[k] <= '9' by {
            if k < d.len() {
                assert(decimal(n)[k] == d[k]);
            }
        }
        assert(n == (n / 10) * 10 + n % 10);
    }
}

} // verus!
