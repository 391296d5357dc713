//! The borrow-checking algorithms, and their names.

use vstd::prelude::*;

verus! {

/// A borrow-checking algorithm.
#[derive(Debug, Clone, Copy, PartialEq, Eq, Structural)]
pub enum Algorithm {
    /// Simple rules, but slower to execute
    Naive,
    /// Optimized variant of the rules
    DatafrogOpt,
    /// Fast to compute, but imprecise: there can be false-positives
    /// but no false-negatives. Tailored for quick "early return" situations.
    LocationInsensitive,
    /// Compares the `Naive` and `DatafrogOpt` variants to ensure they indeed
    /// compute the same errors.
    Compare,
    /// Combination of the fast `LocationInsensitive` pre-pass, followed by
    /// the more expensive `DatafrogOpt` variant.
    Hybrid,
}

/// The algorithms, in the order of [`Algorithm::variants`].
pub open spec fn algorithm_at(i: int) -> Algorithm {
    if i == 0 {
        Algorithm::Naive
    } else if i == 1 {
        Algorithm::DatafrogOpt
    } else if i == 2 {
        Algorithm::LocationInsensitive
    } else if i == 3 {
        Algorithm::Compare
    } else {
        Algorithm::Hybrid
    }
}

/// Whether `c` is `t`, or the ASCII capital of the lowercase ASCII letter `t`.
pub open spec fn lower_eq(c: char, t: char) -> bool {
    c == t || ('a' <= t <= 'z' && c as u32 + 32 == t as u32)
}

/// Whether `s` lowercases to `name`, a lowercase ASCII name: each of its characters is the
/// character of `name` or that letter's ASCII capital. (No other character lowercases to an
/// ASCII letter but the Kelvin sign, to `k`, which the algorithm names do not hold.)
pub open spec fn lowercases_to(s: Seq<char>, name: Seq<char>) -> bool {
    s.len() == name.len() && forall|i: int| 0 <= i < s.len() ==> lower_eq(#[trigger] s[i], name[i])
}

/// The message of the error for a name that is no algorithm's.
pub open spec fn valid_values_message() -> Seq<char> {
    "valid values: Naive, DatafrogOpt, LocationInsensitive, Compare, Hybrid"@
}

impl Algorithm {
    /// The name of the algorithm.
    pub open spec fn name(self) -> Seq<char> {
        match self {
            Algorithm::Naive => seq!['N', 'a', 'i', 'v', 'e'],
            Algorithm::DatafrogOpt => seq!['D', 'a', 't', 'a', 'f', 'r', 'o', 'g', 'O', 'p', 't'],
            Algorithm::LocationInsensitive => seq![
                'L', 'o', 'c', 'a', 't', 'i', 'o', 'n', 'I', 'n', 's', 'e', 'n', 's', 'i', 't', 'i', 'v', 'e',
            ],
            Algorithm::Compare => seq!['C', 'o', 'm', 'p', 'a', 'r', 'e'],
            Algorithm::Hybrid => seq!['H', 'y', 'b', 'r', 'i', 'd'],
        }
    }

    /// The name of the algorithm, in lowercase.
    pub open spec fn lowercase_name(self) -> Seq<char> {
        match self {
            Algorithm::Naive => seq!['n', 'a', 'i', 'v', 'e'],
            Algorithm::DatafrogOpt => seq!['d', 'a', 't', 'a', 'f', 'r', 'o', 'g', 'o', 'p', 't'],
            Algorithm::LocationInsensitive => seq![
                'l', 'o', 'c', 'a', 't', 'i', 'o', 'n', 'i', 'n', 's', 'e', 'n', 's', 'i', 't', 'i', 'v', 'e',
            ],
            Algorithm::Compare => seq!['c', 'o', 'm', 'p', 'a', 'r', 'e'],
            Algorithm::Hybrid => seq!['h', 'y', 'b', 'r', 'i', 'd'],
        }
    }

    /// The names of the algorithms: `Naive`, `DatafrogOpt`, `LocationInsensitive`, `Compare`
    /// and `Hybrid`.
    pub fn variants() -> (r: [&'static str; 5])
        ensures
            forall|i: int| 0 <= i < 5 ==> (#[trigger] r@[i])@ == algorithm_at(i).name(),
    {
        let r = ["Naive", "DatafrogOpt", "LocationInsensitive", "Compare", "Hybrid"];
        proof {
            reveal_strlit("Naive");
            reveal_strlit("DatafrogOpt");
            reveal_strlit("LocationInsensitive");
            reveal_strlit("Compare");
            reveal_strlit("Hybrid");
            assert("Naive"@ =~= Algorithm::Naive.name());
            assert("DatafrogOpt"@ =~= Algorithm::DatafrogOpt.name());
            assert("LocationInsensitive"@ =~= Algorithm::LocationInsensitive.name());
            assert("Compare"@ =~= Algorithm::Compare.name());
            assert("Hybrid"@ =~= Algorithm::Hybrid.name());
        }
        r
    }

    /// The algorithm whose name `s` is, in any case: `s` lowercased is one of `naive`,
    /// `datafrogopt`, `locationinsensitive`, `compare` and `hybrid`. Any other name gives
    /// the error message listing the valid values.
    pub fn from_str(s: &str) -> (r: Result<Algorithm, String>)
        ensures
            r matches Ok(a) ==> lowercases_to(s@, a.lowercase_name()),
            r is Err <==> forall|i: int| 0 <= i < 5 ==> !lowercases_to(s@, #[trigger] algorithm_at(i).lowercase_name()),
            r matches Err(m) ==> m@ == valid_values_message(),
            forall|i: int|
                0 <= i < 5 && lowercases_to(s@, #[trigger] algorithm_at(i).lowercase_name()) ==> (r matches Ok(a) && a
                    == algorithm_at(i)),
    {
        let cs = crate::text::chars_of(s);
        let mut k: usize = 0;
        while k < 5
            invariant
                k <= 5,
                cs@ == s@,
                forall|i: int| 0 <= i < k ==> !lowercases_to(s@, #[trigger] algorithm_at(i).lowercase_name()),
            decreases 5 - k,
        {
            let a = if k == 0 {
                Algorithm::Naive
            } else if k == 1 {
                Algorithm::DatafrogOpt
            } else if k == 2 {
                Algorithm::LocationInsensitive
            } else if k == 3 {
                Algorithm::Compare
            } else {
                Algorithm::Hybrid
            };
            assert(a == algorithm_at(k as int));
            let name = a.lowercase_str();
            if matches_lowercase(&cs, name) {
                proof {
                    assert forall|i: int|
                        0 <= i < 5 && lowercases_to(s@, #[trigger] algorithm_at(i).lowercase_name()) implies a == algorithm_at(i) by {
                        assert(algorithm_at(i).lowercase_name().len() == a.lowercase_name().len());
                    }
                }
                return Ok(a);
            }
            k = k + 1;
        }
        let m = "valid values: Naive, DatafrogOpt, LocationInsensitive, Compare, Hybrid".to_owned();
        Err(m)
    }

    /// The name of the algorithm, in lowercase.
    fn lowercase_str(&self) -> (r: &'static str)
        ensures
            r@ == self.lowercase_name(),
    {
        proof {
            reveal_strlit("naive");
            reveal_strlit("datafrogopt");
            reveal_strlit("locationinsensitive");
            reveal_strlit("compare");
            reveal_strlit("hybrid");
        }
        match self {
            Algorithm::Naive => {
                assert("naive"@ =~= Algorithm::Naive.lowercase_name());
                "naive"
            },
            Algorithm::DatafrogOpt => {
                assert("datafrogopt"@ =~= Algorithm::DatafrogOpt.lowercase_name());
                "datafrogopt"
            },
            Algorithm::LocationInsensitive => {
                assert("locationinsensitive"@ =~= Algorithm::LocationInsensitive.lowercase_name());
                "locationinsensitive"
            },
            Algorithm::Compare => {
                assert("compare"@ =~= Algorithm::Compare.lowercase_name());
                "compare"
            },
            Algorithm::Hybrid => {
                assert("hybrid"@ =~= Algorithm::Hybrid.lowercase_name());
                "hybrid"
            },
        }
    }
}

/// Whether `s` lowercases to `name` (see [`lowercases_to`]).
fn matches_lowercase(s: &Vec<char>, name: &str) -> (r: bool)
    ensures
        r == lowercases_to(s@, name@),
{
    let n = crate::text::chars_of(name);
    if s.len() != n.len() {
        return false;
    }
    let mut i: usize = 0;
    while i < s.len()
        invariant
            i <= s@.len(),
            s@.len() == n@.len(),
            n@ == name@,
            forall|j: int| 0 <= j < i ==> lower_eq(#[trigger] s@[j], n@[j]),
        decreases s@.len() - i,
    {
        let c = s[i];
        let t = n[i];
        let ok = c == t || ('a' <= t && t <= 'z' && (c as u32) == (t as u32) - 32);
        if !ok {
            return false;
        }
        i = i + 1;
    }
    true
}

impl std::str::FromStr for Algorithm {
    type Err = String;

    fn from_str(s: &str) -> (r: Result<Algorithm, String>)
        ensures
            r matches Ok(a) ==> lowercases_to(s@, a.lowercase_name()),
            r is Err <==> forall|i: int| 0 <= i < 5 ==> !lowercases_to(s@, #[trigger] algorithm_at(i).lowercase_name()),
            r matches Err(m) ==> m@ == valid_values_message(),
            forall|i: int|
                0 <= i < 5 && lowercases_to(s@, #[trigger] algorithm_at(i).lowercase_name()) ==> (r matches Ok(a) && a
                    == algorithm_at(i)),
    {
        Algorithm::from_str(s)
    }
}

/// Each name that [`Algorithm::variants`] lists gives back its algorithm: it lowercases to
/// that algorithm's lowercase name, and to no other's.
pub proof fn lemma_variant_names_parse(i: int, j: int)
    requires
        0 <= i < 5,
        0 <= j < 5,
    ensures
        lowercases_to(algorithm_at(i).name(), algorithm_at(j).lowercase_name()) <==> i == j,
{
    let s = algorithm_at(i).name();
    let t = algorithm_at(j).lowercase_name();
    if i == j {
        assert(lowercases_to(s, t));
    } else if s.len() == t.len() {
        // the only names of equal length are none: the lengths are 5, 11, 19, 7 and 6
        assert(false);
    }
}

} // verus!
