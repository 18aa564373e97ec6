//! The output-file template: a format string that must contain the handout
//! placeholder, and the substitution that turns it into an output filename.
use vstd::prelude::*;
use vstd::string::StringExecFns;

verus! {

/// The placeholder that the format template must contain; it is replaced
/// with the handout identifier.
pub open spec fn placeholder() -> Seq<char> {
    "{handout}"@
}

/// `s` with every leftmost, non-overlapping occurrence of `pat` replaced
/// by `rep`; `s` itself when `pat` is empty.
pub open spec fn subst(s: Seq<char>, pat: Seq<char>, rep: Seq<char>) -> Seq<char>
    decreases s.len(),
{
    if pat.len() == 0 || s.len() < pat.len() {
        s
    } else if s.subrange(0, pat.len() as int) == pat {
        rep + subst(s.skip(pat.len() as int), pat, rep)
    } else {
        seq![s[0]] + subst(s.skip(1), pat, rep)
    }
}

/// `pat` occurs somewhere in `s`.
pub open spec fn contains_seq(s: Seq<char>, pat: Seq<char>) -> bool {
    exists|i: int| 0 <= i <= s.len() - pat.len() && #[trigger] s.subrange(i, i + pat.len()) == pat
}

/// Returns whether `pat` stands in `s` at position `i`.
fn match_at(s: &str, i: usize, pat: &str) -> (r: bool)
    requires
        i <= s@.len(),
    ensures
        r == (i + pat@.len() <= s@.len() && s@.subrange(i as int, i + pat@.len()) == pat@),
{
    let m = pat.unicode_len();
    let len = s.unicode_len();
    if m > len - i {
        return false;
    }
    let mut j: usize = 0;
    while j < m
        invariant
            j <= m,
            m == pat@.len(),
            len == s@.len(),
            i + m <= len,
            forall|k: int| 0 <= k < j ==> s@[i + k] == pat@[k],
        decreases m - j,
    {
        if s.get_char(i + j) != pat.get_char(j) {
            proof {
                assert(s@.subrange(i as int, i + pat@.len())[j as int] != pat@[j as int]);
            }
            return false;
        }
        j += 1;
    }
    proof {
        assert(s@.subrange(i as int, i + pat@.len()) =~= pat@);
    }
    true
}

/// `s` with every leftmost, non-overlapping occurrence of `pat` replaced
/// by `rep`.
pub fn replace_all(s: &str, pat: &str, rep: &str) -> (r: String)
    requires
        pat@.len() >= 1,
    ensures
        r@ == subst(s@, pat@, rep@),
{
    let mut out = String::new();
    let len = s.unicode_len();
    let m = pat.unicode_len();
    let mut i: usize = 0;
    proof {
        assert(s@.skip(0) =~= s@);
        assert(out@ + subst(s@.skip(0), pat@, rep@) =~= subst(s@, pat@, rep@));
    }
    while i < len
        invariant
            i <= len,
            len == s@.len(),
            m == pat@.len(),
            m >= 1,
            out@ + subst(s@.skip(i as int), pat@, rep@) == subst(s@, pat@, rep@),
        decreases len - i,
    {
        if match_at(s, i, pat) {
            out.append(rep);
            proof {
                assert(s@.skip(i as int).subrange(0, m as int) =~= s@.subrange(
                    i as int,
                    i + m as int,
                ));
                assert(s@.skip(i as int).skip(m as int) =~= s@.skip(i + m as int));
                assert(subst(s@.skip(i as int), pat@, rep@) == rep@ + subst(
                    s@.skip(i + m as int),
                    pat@,
                    rep@,
                ));
                assert(out@ + subst(s@.skip(i + m as int), pat@, rep@) =~= subst(s@, pat@, rep@));
            }
            i += m;
        } else {
            let c = s.substring_char(i, i + 1);
            out.append(c);
            proof {
                assert(s@.skip(i as int)[0] == s@[i as int]);
                if i + m <= len {
                    assert(s@.skip(i as int).subrange(0, m as int) =~= s@.subrange(
                        i as int,
                        i + m as int,
                    ));
                } else {
                    assert(s@.skip(i as int).len() < m);
                    assert(s@.skip(i + 1 as int).len() < m);
                }
                assert(seq![s@.skip(i as int)[0]] =~= s@.subrange(i as int, i + 1 as int));
                assert(s@.skip(i as int).skip(1) =~= s@.skip(i + 1 as int));
                assert(subst(s@.skip(i as int), pat@, rep@) =~= s@.subrange(i as int, i + 1 as int)
                    + subst(s@.skip(i + 1 as int), pat@, rep@));
                assert(out@ + subst(s@.skip(i + 1 as int), pat@, rep@) =~= subst(s@, pat@, rep@));
            }
            i += 1;
        }
    }
    proof {
        assert(s@.skip(len as int) =~= Seq::<char>::empty());
        assert(out@ + subst(s@.skip(len as int), pat@, rep@) =~= out@);
    }
    out
}

/// The configuration the sync consumes: the output filename template.
pub struct Config {
    pub format: String,
}

impl Default for Config {
    /// The default template: the bare handout identifier.
    fn default() -> (r: Self)
        ensures
            r.format@ == placeholder(),
    {
        Config { format: String::from_str("{handout}") }
    }
}

impl Config {
    /// Returns whether the template is valid: it contains the handout
    /// placeholder. A sync run must not start on an invalid template.
    pub fn validate(&self) -> (r: bool)
        ensures
            r == contains_seq(self.format@, placeholder()),
    {
        proof {
            reveal_strlit("{handout}");
        }
        let pat = "{handout}";
        let s = self.format.as_str();
        let len = s.unicode_len();
        let m = pat.unicode_len();
        if m > len {
            return false;
        }
        let mut i: usize = 0;
        while i <= len - m
            invariant
                i <= len - m + 1,
                m == placeholder().len(),
                m >= 1,
                m <= len,
                len == self.format@.len(),
                s@ == self.format@,
                pat@ == placeholder(),
                forall|j: int|
                    0 <= j < i ==> #[trigger] self.format@.subrange(j, j + placeholder().len())
                        != placeholder(),
            decreases len - m + 1 - i,
        {
            if match_at(s, i, pat) {
                return true;
            }
            i += 1;
        }
        false
    }
}

/// The output filename for a handout: the template with the placeholder
/// replaced by the identifier, then the handout extension.
pub fn handout_output_file(config: &Config, handout: &str) -> (r: String)
    ensures
        r@ == subst(config.format@, placeholder(), handout@) + ".pdf"@,
{
    proof {
        reveal_strlit("{handout}");
    }
    let mut s = replace_all(config.format.as_str(), "{handout}", handout);
    s.append(".pdf");
    s
}

} // verus!
