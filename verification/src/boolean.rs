//! A yes/no flag whose textual form is `"yes"` or `"no"`, generic over
//! the value an absent field defaults to.

use vstd::prelude::*;

verus! {

/// A boolean wrapper whose textual form is `"yes"` or `"no"`. The const
/// parameter `D` is the value the flag defaults to where it is absent.
#[derive(Copy, Clone, Debug, PartialEq, Eq)]
pub struct Bool<const D: bool>(pub bool);

impl<const D: bool> Bool<D> {
    /// The flag whose textual form is `"yes"`.
    pub fn yes() -> (r: Self)
        ensures
            r.0,
    {
        Bool(true)
    }

    /// The flag whose textual form is `"no"`.
    pub fn no() -> (r: Self)
        ensures
            !r.0,
    {
        Bool(false)
    }

    /// Parses the textual form: `"yes"` or `"no"`; any other text is
    /// rejected.
    pub fn from_str(s: &str) -> (r: Result<Self, &'static str>)
        ensures
            r is Ok <==> (s@ == "yes"@ || s@ == "no"@),
            match r {
                Ok(b) => b.0 <==> s@ == "yes"@,
                Err(_) => true,
            },
    {
        proof {
            reveal_strlit("yes");
            reveal_strlit("no");
        }
        let n = s.unicode_len();
        if n == 3 {
            let c0 = s.get_char(0);
            let c1 = s.get_char(1);
            let c2 = s.get_char(2);
            if c0 as u32 == 121 && c1 as u32 == 101 && c2 as u32 == 115 {
                proof {
                    assert(c0 == 'y' && c1 == 'e' && c2 == 's');
                    assert(s@ =~= "yes"@);
                }
                return Ok(Bool(true));
            }
            proof {
                assert(s@ != "yes"@) by {
                    if s@ == "yes"@ {
                        assert(s@[0] == 'y' && s@[1] == 'e' && s@[2] == 's');
                    }
                }
            }
            return Err("expected \"yes\" or \"no\"");
        }
        if n == 2 {
            let c0 = s.get_char(0);
            let c1 = s.get_char(1);
            if c0 as u32 == 110 && c1 as u32 == 111 {
                proof {
                    assert(c0 == 'n' && c1 == 'o');
                    assert(s@ =~= "no"@);
                }
                return Ok(Bool(false));
            }
            proof {
                assert(s@ != "no"@) by {
                    if s@ == "no"@ {
                        assert(s@[0] == 'n' && s@[1] == 'o');
                    }
                }
            }
            return Err("expected \"yes\" or \"no\"");
        }
        Err("expected \"yes\" or \"no\"")
    }

    /// The textual form of this flag.
    pub fn as_str(&self) -> (r: &'static str)
        ensures
            r@ == (if self.0 {
                "yes"@
            } else {
                "no"@
            }),
    {
        if self.0 {
            "yes"
        } else {
            "no"
        }
    }
}

impl<const D: bool> Default for Bool<D> {
    /// An absent flag means `D`.
    fn default() -> (r: Self)
        ensures
            r.0 == D,
    {
        Bool(D)
    }
}

} // verus!
