//! Ignore rules: name patterns excluded at every directory level while a
//! working directory is walked into a snapshot tree. A pattern without a
//! wildcard matches exactly its own text; `*` matches any run of characters.

use vstd::prelude::*;

verus! {

/// Whether the pattern `p` matches the whole of `s`: ordinary characters
/// match themselves, `*` matches any run of characters.
pub open spec fn glob_matches(p: Seq<char>, s: Seq<char>) -> bool
    decreases p.len(), s.len(),
{
    if p.len() == 0 {
        s.len() == 0
    } else if p[0] == '*' {
        glob_matches(p.drop_first(), s) || (s.len() > 0 && glob_matches(p, s.drop_first()))
    } else {
        s.len() > 0 && p[0] == s[0] && glob_matches(p.drop_first(), s.drop_first())
    }
}

/// Whether any of the patterns matches the name.
pub open spec fn any_rule_matches(rules: Seq<String>, name: Seq<char>) -> bool {
    exists|i: int| 0 <= i < rules.len() && glob_matches((#[trigger] rules[i])@, name)
}

/// The newline-separated lines of a text, empty lines left out; `cur` is the
/// line gathered so far.
pub open spec fn split_lines_from(s: Seq<char>, cur: Seq<char>) -> Seq<Seq<char>>
    decreases s.len(),
{
    if s.len() == 0 {
        if cur.len() == 0 {
            Seq::empty()
        } else {
            seq![cur]
        }
    } else if s[0] == '\n' {
        (if cur.len() == 0 {
            Seq::<Seq<char>>::empty()
        } else {
            seq![cur]
        }) + split_lines_from(s.drop_first(), Seq::empty())
    } else {
        split_lines_from(s.drop_first(), cur.push(s[0]))
    }
}

/// The patterns recorded in a newline-separated rules text.
pub open spec fn rule_lines(s: Seq<char>) -> Seq<Seq<char>> {
    split_lines_from(s, Seq::empty())
}

/// The views of a list of pattern strings.
pub open spec fn rule_views(rules: Seq<String>) -> Seq<Seq<char>> {
    Seq::new(rules.len(), |i: int| rules[i]@)
}

/// The set of name patterns excluded while building a snapshot tree.
#[derive(Debug)]
pub struct IgnoreRules {
    /// The patterns, one name or glob each.
    pub glob: Vec<String>,
}

impl Default for IgnoreRules {
    /// The default rules exclude exactly the repository's own metadata
    /// directory.
    fn default() -> (r: Self)
        ensures
            r.glob@.len() == 1,
            r.glob@[0]@ == crate::DOT_YUAN_SHEN@,
    {
        let mut glob: Vec<String> = Vec::new();
        glob.push(crate::DOT_YUAN_SHEN.to_owned());
        IgnoreRules { glob }
    }
}

impl IgnoreRules {
    /// A value-equal copy of this rule set.
    pub fn duplicate(&self) -> (r: Self)
        ensures
            r.glob@ == self.glob@,
    {
        let mut out: Vec<String> = Vec::new();
        let mut i: usize = 0;
        while i < self.glob.len()
            invariant
                i <= self.glob@.len(),
                out@ =~= self.glob@.take(i as int),
            decreases self.glob@.len() - i,
        {
            out.push(self.glob[i].clone());
            proof {
                assert(out@ =~= self.glob@.take(i + 1));
            }
            i = i + 1;
        }
        proof {
            assert(out@ =~= self.glob@);
        }
        IgnoreRules { glob: out }
    }

    /// Whether this rule set excludes the given entry name.
    pub fn matches(&self, name: &str) -> (r: bool)
        ensures
            r == any_rule_matches(self.glob@, name@),
    {
        let mut i: usize = 0;
        while i < self.glob.len()
            invariant
                i <= self.glob@.len(),
                forall|k: int| 0 <= k < i ==> !glob_matches((#[trigger] self.glob@[k])@, name@),
            decreases self.glob@.len() - i,
        {
            if glob_match(self.glob[i].as_str(), name) {
                return true;
            }
            i = i + 1;
        }
        false
    }

    /// Reads a rule set back from its newline-separated record; empty lines
    /// carry no pattern.
    pub fn parse(text: &str) -> (r: Self)
        ensures
            rule_views(r.glob@) =~= rule_lines(text@),
    {
        let len: usize = text.unicode_len();
        let mut out: Vec<String> = Vec::new();
        let mut cur = String::new();
        let mut i: usize = 0;
        proof {
            assert(text@.skip(0) =~= text@);
            assert(rule_views(out@) =~= Seq::<Seq<char>>::empty());
            assert(cur@ =~= Seq::<char>::empty());
        }
        while i < len
            invariant
                i <= len,
                len == text@.len(),
                rule_views(out@) + split_lines_from(text@.skip(i as int), cur@) =~= rule_lines(
                    text@,
                ),
            decreases len - i,
        {
            let c = text.get_char(i);
            proof {
                assert(text@.skip(i as int)[0] == text@[i as int]);
                assert(text@.skip(i as int).drop_first() =~= text@.skip(i + 1));
            }
            if c == '\n' {
                if cur.unicode_len() > 0 {
                    proof {
                        assert(rule_views(out@.push(cur)) =~= rule_views(out@).push(cur@));
                    }
                    out.push(cur);
                    cur = String::new();
                } else {
                    proof {
                        assert(cur@ =~= Seq::<char>::empty());
                    }
                }
            } else {
                crate::text::push_char(&mut cur, c);
            }
            i = i + 1;
        }
        proof {
            assert(text@.skip(len as int) =~= Seq::<char>::empty());
        }
        if cur.unicode_len() > 0 {
            proof {
                assert(rule_views(out@.push(cur)) =~= rule_views(out@).push(cur@));
            }
            out.push(cur);
        } else {
            proof {
                assert(cur@ =~= Seq::<char>::empty());
            }
        }
        IgnoreRules { glob: out }
    }

    /// The newline-separated record of this rule set: each pattern followed
    /// by one line break.
    pub fn record(&self) -> (s: String)
        ensures
            s@ =~= joined_lines(rule_views(self.glob@)),
    {
        let mut s = String::new();
        let mut i: usize = 0;
        proof {
            assert(rule_views(self.glob@).take(0) =~= Seq::<Seq<char>>::empty());
        }
        while i < self.glob.len()
            invariant
                i <= self.glob@.len(),
                s@ =~= joined_lines(rule_views(self.glob@).take(i as int)),
            decreases self.glob@.len() - i,
        {
            s.append(self.glob[i].as_str());
            proof {
                reveal_strlit("\n");
            }
            s.append("\n");
            proof {
                lemma_joined_lines_push(
                    rule_views(self.glob@).take(i as int),
                    rule_views(self.glob@)[i as int],
                );
                assert(rule_views(self.glob@).take(i + 1) =~= rule_views(self.glob@).take(
                    i as int,
                ).push(rule_views(self.glob@)[i as int]));
            }
            i = i + 1;
        }
        proof {
            assert(rule_views(self.glob@).take(self.glob@.len() as int) =~= rule_views(
                self.glob@,
            ));
        }
        s
    }
}

/// The text of a list of lines, each followed by one line break.
pub open spec fn joined_lines(ls: Seq<Seq<char>>) -> Seq<char>
    decreases ls.len(),
{
    if ls.len() == 0 {
        Seq::empty()
    } else {
        ls[0] + seq!['\n'] + joined_lines(ls.drop_first())
    }
}

/// Joining one more line appends it and a line break.
pub proof fn lemma_joined_lines_push(ls: Seq<Seq<char>>, x: Seq<char>)
    ensures
        joined_lines(ls.push(x)) =~= joined_lines(ls) + x + seq!['\n'],
    decreases ls.len(),
{
    if ls.len() == 0 {
        assert(ls.push(x)[0] == x);
        assert(ls.push(x).drop_first() =~= Seq::<Seq<char>>::empty());
        assert(joined_lines(ls.push(x)) == x + seq!['\n'] + joined_lines(Seq::<Seq<char>>::empty()));
    } else {
        lemma_joined_lines_push(ls.drop_first(), x);
        assert(ls.push(x).drop_first() =~= ls.drop_first().push(x));
        assert(ls.push(x)[0] == ls[0]);
        assert(joined_lines(ls.push(x)) == ls[0] + seq!['\n'] + joined_lines(
            ls.drop_first().push(x),
        ));
        assert(joined_lines(ls) == ls[0] + seq!['\n'] + joined_lines(ls.drop_first()));
    }
}

/// Whether the pattern matches the whole name.
pub fn glob_match(pattern: &str, name: &str) -> (r: bool)
    ensures
        r == glob_matches(pattern@, name@),
{
    let p_len: usize = pattern.unicode_len();
    let n_len: usize = name.unicode_len();
    proof {
        assert(pattern@.skip(0) =~= pattern@);
        assert(name@.skip(0) =~= name@);
    }
    glob_match_at(pattern, name, 0, 0, p_len, n_len)
}

/// Whether the pattern from `pi` on matches the name from `si` on.
fn glob_match_at(pattern: &str, name: &str, pi: usize, si: usize, p_len: usize, n_len: usize) -> (r:
    bool)
    requires
        pi <= p_len,
        si <= n_len,
        p_len == pattern@.len(),
        n_len == name@.len(),
    ensures
        r == glob_matches(pattern@.skip(pi as int), name@.skip(si as int)),
    decreases p_len - pi, n_len - si,
{
    proof {
        if pi < p_len {
            assert(pattern@.skip(pi as int)[0] == pattern@[pi as int]);
            assert(pattern@.skip(pi as int).drop_first() =~= pattern@.skip(pi + 1));
        }
        if si < n_len {
            assert(name@.skip(si as int)[0] == name@[si as int]);
            assert(name@.skip(si as int).drop_first() =~= name@.skip(si + 1));
        }
    }
    if pi >= p_len {
        proof {
            assert(pattern@.skip(pi as int) =~= Seq::<char>::empty());
        }
        si >= n_len
    } else {
        let pc = pattern.get_char(pi);
        if pc == '*' {
            if glob_match_at(pattern, name, pi + 1, si, p_len, n_len) {
                true
            } else if si < n_len {
                glob_match_at(pattern, name, pi, si + 1, p_len, n_len)
            } else {
                false
            }
        } else {
            if si >= n_len {
                false
            } else {
                let nc = name.get_char(si);
                if pc == nc {
                    glob_match_at(pattern, name, pi + 1, si + 1, p_len, n_len)
                } else {
                    false
                }
            }
        }
    }
}

} // verus!
