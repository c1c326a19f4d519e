//! Search over the profile store: a tiny token language over
//! whitespace-separated terms.  A bare term is free text matched jointly
//! across domain, username, tags and notes; `tag:`, `domain:` and
//! `username:` constrain a term to one field.  Same-kind terms OR together,
//! different kinds AND together.  A query with no terms returns everything
//! unranked; otherwise results are ordered by how many terms match — the
//! relevance ranking this store documents: more matched terms rank higher,
//! ties keep storage order.  Matching compares terms against maximal
//! alphanumeric runs of a field, ASCII-case-insensitively.

use crate::charset::lemma_char_code_inj;
use crate::errors::Error;
use crate::profile::clone_key;
use crate::profile::key_eq;
use crate::profile::opt_view;
use crate::profile::KeyItem;
use crate::profile::ProfileDB;
use crate::tags::joined_tags;
use crate::text::chars_to_string;
use crate::text::lemma_views_of_push;
use crate::text::push_char;
use crate::text::str_chars;
use crate::text::views_of;
use vstd::prelude::*;
use vstd::string::StringExecFns;

verus! {

/// Whether `c` separates query terms: the ASCII blanks.
pub open spec fn is_space_char(c: char) -> bool {
    c == ' ' || (9 <= c as u32 && c as u32 <= 13)
}

/// The whitespace-separated terms of a query, from position `i`, with the
/// term read so far and the terms already collected.
pub open spec fn tokens_from(s: Seq<char>, i: int, cur: Seq<char>, acc: Seq<Seq<char>>) -> Seq<
    Seq<char>,
>
    decreases s.len() - i,
{
    if i < 0 || i >= s.len() {
        if cur.len() > 0 {
            acc.push(cur)
        } else {
            acc
        }
    } else if is_space_char(s[i]) {
        if cur.len() > 0 {
            tokens_from(s, i + 1, Seq::empty(), acc.push(cur))
        } else {
            tokens_from(s, i + 1, Seq::empty(), acc)
        }
    } else {
        tokens_from(s, i + 1, cur.push(s[i]), acc)
    }
}

/// The whitespace-separated terms of a query.
pub open spec fn tokens_of(s: Seq<char>) -> Seq<Seq<char>> {
    tokens_from(s, 0, Seq::empty(), Seq::empty())
}

/// Splits a query into its whitespace-separated terms.
pub fn split_tokens(s: &str) -> (r: Vec<String>)
    ensures
        views_of(r@) == tokens_of(s@),
{
    let cs = str_chars(s);
    let mut out: Vec<String> = Vec::new();
    let mut cur: Vec<char> = Vec::new();
    let mut i: usize = 0;
    proof {
        assert(views_of(out@) =~= Seq::<Seq<char>>::empty());
        assert(cur@ =~= Seq::<char>::empty());
    }
    while i < cs.len()
        invariant
            cs@ == s@,
            i <= cs@.len(),
            tokens_of(s@) == tokens_from(s@, i as int, cur@, views_of(out@)),
        decreases cs@.len() - i,
    {
        let ghost out_old = views_of(out@);
        let ghost cur_old = cur@;
        let c = cs[i];
        let code = c as u32;
        if c == ' ' || (9 <= code && code <= 13) {
            proof {
                assert(is_space_char(s@[i as int]));
            }
            if cur.len() > 0 {
                let ghost ov = out@;
                let token = chars_to_string(&cur);
                out.push(token);
                proof {
                    lemma_views_of_push(ov, token);
                    assert(views_of(out@) == out_old.push(cur_old));
                }
                cur = Vec::new();
            }
            proof {
                assert(cur@ =~= Seq::<char>::empty());
                if cur_old.len() > 0 {
                    assert(tokens_from(s@, i as int, cur_old, out_old) == tokens_from(
                        s@,
                        i + 1,
                        Seq::empty(),
                        out_old.push(cur_old),
                    ));
                } else {
                    assert(cur_old =~= Seq::<char>::empty());
                    assert(tokens_from(s@, i as int, cur_old, out_old) == tokens_from(
                        s@,
                        i + 1,
                        Seq::empty(),
                        out_old,
                    ));
                }
            }
        } else {
            cur.push(c);
            proof {
                assert(!is_space_char(s@[i as int]));
                assert(tokens_from(s@, i as int, cur_old, out_old) == tokens_from(
                    s@,
                    i + 1,
                    cur_old.push(s@[i as int]),
                    out_old,
                ));
            }
        }
        i = i + 1;
    }
    if cur.len() > 0 {
        let ghost out_old = out@;
        let token = chars_to_string(&cur);
        out.push(token);
        proof {
            lemma_views_of_push(out_old, token);
        }
    }
    out
}

/// The terms carrying a given prefix, with the prefix stripped, in order.
pub open spec fn stripped_tokens(tokens: Seq<Seq<char>>, prefix: Seq<char>) -> Seq<Seq<char>>
    decreases tokens.len(),
{
    if tokens.len() == 0 {
        Seq::empty()
    } else if prefix.is_prefix_of(tokens[0]) {
        seq![tokens[0].skip(prefix.len() as int)] + stripped_tokens(tokens.drop_first(), prefix)
    } else {
        stripped_tokens(tokens.drop_first(), prefix)
    }
}

/// The bare terms: those carrying none of the three field prefixes.
pub open spec fn bare_tokens(tokens: Seq<Seq<char>>) -> Seq<Seq<char>>
    decreases tokens.len(),
{
    if tokens.len() == 0 {
        Seq::empty()
    } else if "tag:"@.is_prefix_of(tokens[0]) || "domain:"@.is_prefix_of(tokens[0])
        || "username:"@.is_prefix_of(tokens[0]) {
        bare_tokens(tokens.drop_first())
    } else {
        seq![tokens[0]] + bare_tokens(tokens.drop_first())
    }
}

/// Classifying one more term appends it to the matching list.
pub(crate) proof fn lemma_stripped_snoc(tokens: Seq<Seq<char>>, t: Seq<char>, prefix: Seq<char>)
    ensures
        stripped_tokens(tokens.push(t), prefix) == if prefix.is_prefix_of(t) {
            stripped_tokens(tokens, prefix) + seq![t.skip(prefix.len() as int)]
        } else {
            stripped_tokens(tokens, prefix)
        },
    decreases tokens.len(),
{
    if tokens.len() == 0 {
        assert(tokens =~= Seq::<Seq<char>>::empty());
        assert(tokens.push(t)[0] == t);
        assert(tokens.push(t).drop_first() =~= tokens);
        if prefix.is_prefix_of(t) {
            assert(stripped_tokens(tokens.push(t), prefix) == seq![t.skip(prefix.len() as int)]
                + stripped_tokens(tokens, prefix));
            assert(stripped_tokens(tokens, prefix) == Seq::<Seq<char>>::empty());
            assert(seq![t.skip(prefix.len() as int)] + stripped_tokens(tokens, prefix)
                =~= stripped_tokens(tokens, prefix) + seq![t.skip(prefix.len() as int)]);
        }
    } else {
        assert(tokens.push(t)[0] == tokens[0]);
        assert(tokens.push(t).drop_first() =~= tokens.drop_first().push(t));
        lemma_stripped_snoc(tokens.drop_first(), t, prefix);
        if prefix.is_prefix_of(tokens[0]) && prefix.is_prefix_of(t) {
            assert(seq![tokens[0].skip(prefix.len() as int)] + (stripped_tokens(
                tokens.drop_first(),
                prefix,
            ) + seq![t.skip(prefix.len() as int)]) =~= (seq![tokens[0].skip(prefix.len() as int)]
                + stripped_tokens(tokens.drop_first(), prefix)) + seq![
                t.skip(prefix.len() as int),
            ]);
        }
    }
}

/// Classifying one more bare term appends it.
proof fn lemma_bare_snoc(tokens: Seq<Seq<char>>, t: Seq<char>)
    ensures
        bare_tokens(tokens.push(t)) == if "tag:"@.is_prefix_of(t) || "domain:"@.is_prefix_of(t)
            || "username:"@.is_prefix_of(t) {
            bare_tokens(tokens)
        } else {
            bare_tokens(tokens) + seq![t]
        },
    decreases tokens.len(),
{
    if tokens.len() == 0 {
        assert(tokens =~= Seq::<Seq<char>>::empty());
        assert(tokens.push(t)[0] == t);
        assert(tokens.push(t).drop_first() =~= tokens);
        if !("tag:"@.is_prefix_of(t) || "domain:"@.is_prefix_of(t) || "username:"@.is_prefix_of(
            t,
        )) {
            assert(bare_tokens(tokens.push(t)) == seq![t] + bare_tokens(tokens));
            assert(bare_tokens(tokens) == Seq::<Seq<char>>::empty());
            assert(seq![t] + bare_tokens(tokens) =~= bare_tokens(tokens) + seq![t]);
        }
    } else {
        assert(tokens.push(t)[0] == tokens[0]);
        assert(tokens.push(t).drop_first() =~= tokens.drop_first().push(t));
        lemma_bare_snoc(tokens.drop_first(), t);
        if !("tag:"@.is_prefix_of(tokens[0]) || "domain:"@.is_prefix_of(tokens[0])
            || "username:"@.is_prefix_of(tokens[0])) && !("tag:"@.is_prefix_of(t)
            || "domain:"@.is_prefix_of(t) || "username:"@.is_prefix_of(t)) {
            assert(seq![tokens[0]] + (bare_tokens(tokens.drop_first()) + seq![t]) =~= (seq![
                tokens[0],
            ] + bare_tokens(tokens.drop_first())) + seq![t]);
        }
    }
}

/// The three field prefixes start with distinct characters, so a term
/// carries at most one of them.
proof fn lemma_prefixes_exclusive(t: Seq<char>)
    ensures
        !("tag:"@.is_prefix_of(t) && "domain:"@.is_prefix_of(t)),
        !("tag:"@.is_prefix_of(t) && "username:"@.is_prefix_of(t)),
        !("domain:"@.is_prefix_of(t) && "username:"@.is_prefix_of(t)),
{
    reveal_strlit("tag:");
    reveal_strlit("domain:");
    reveal_strlit("username:");
    if "tag:"@.is_prefix_of(t) && "domain:"@.is_prefix_of(t) {
        assert(t[0] == "tag:"@[0] && t[0] == "domain:"@[0]);
        assert(false);
    }
    if "tag:"@.is_prefix_of(t) && "username:"@.is_prefix_of(t) {
        assert(t[0] == "tag:"@[0] && t[0] == "username:"@[0]);
        assert(false);
    }
    if "domain:"@.is_prefix_of(t) && "username:"@.is_prefix_of(t) {
        assert(t[0] == "domain:"@[0] && t[0] == "username:"@[0]);
        assert(false);
    }
}

/// Strips a prefix from a term when it carries it.
pub(crate) fn strip_prefix_token(token: &str, prefix: &str) -> (r: Option<String>)
    ensures
        match r {
            Some(rest) => prefix@.is_prefix_of(token@) && rest@ == token@.skip(
                prefix@.len() as int,
            ),
            None => !prefix@.is_prefix_of(token@),
        },
{
    let tc = str_chars(token);
    let pc = str_chars(prefix);
    if tc.len() < pc.len() {
        return None;
    }
    let mut i: usize = 0;
    while i < pc.len()
        invariant
            tc@ == token@,
            pc@ == prefix@,
            pc@.len() <= tc@.len(),
            i <= pc@.len(),
            forall|k: int| 0 <= k < i ==> tc@[k] == pc@[k],
        decreases pc@.len() - i,
    {
        if tc[i] != pc[i] {
            proof {
                assert(!prefix@.is_prefix_of(token@));
            }
            return None;
        }
        i = i + 1;
    }
    let mut rest: Vec<char> = Vec::new();
    let mut j: usize = pc.len();
    while j < tc.len()
        invariant
            tc@ == token@,
            pc@ == prefix@,
            pc@.len() <= j <= tc@.len(),
            rest@ == tc@.subrange(pc@.len() as int, j as int),
        decreases tc@.len() - j,
    {
        rest.push(tc[j]);
        proof {
            assert(rest@ =~= tc@.subrange(pc@.len() as int, j + 1 as int));
        }
        j = j + 1;
    }
    proof {
        assert(prefix@.is_prefix_of(token@));
        assert(rest@ =~= token@.skip(prefix@.len() as int));
    }
    Some(chars_to_string(&rest))
}

/// A parsed search query: the terms of each kind, in query order.
pub struct SearchQuery {
    pub username_tokens: Vec<String>,
    pub domain_tokens: Vec<String>,
    pub tag_tokens: Vec<String>,
    pub fts_tokens: Vec<String>,
}

impl SearchQuery {
    /// Splits a query into terms and sorts each term to its kind by its
    /// prefix; a bare term is free text.
    pub fn new(query: &str) -> (r: SearchQuery)
        ensures
            views_of(r.tag_tokens@) == stripped_tokens(tokens_of(query@), "tag:"@),
            views_of(r.domain_tokens@) == stripped_tokens(tokens_of(query@), "domain:"@),
            views_of(r.username_tokens@) == stripped_tokens(tokens_of(query@), "username:"@),
            views_of(r.fts_tokens@) == bare_tokens(tokens_of(query@)),
    {
        let tokens = split_tokens(query);
        let mut username_tokens: Vec<String> = Vec::new();
        let mut domain_tokens: Vec<String> = Vec::new();
        let mut tag_tokens: Vec<String> = Vec::new();
        let mut fts_tokens: Vec<String> = Vec::new();
        let ghost all = tokens_of(query@);
        let mut i: usize = 0;
        while i < tokens.len()
            invariant
                views_of(tokens@) == all,
                tokens@.len() == all.len(),
                i <= all.len(),
                views_of(tag_tokens@) == stripped_tokens(all.take(i as int), "tag:"@),
                views_of(domain_tokens@) == stripped_tokens(all.take(i as int), "domain:"@),
                views_of(username_tokens@) == stripped_tokens(all.take(i as int), "username:"@),
                views_of(fts_tokens@) == bare_tokens(all.take(i as int)),
            decreases all.len() - i,
        {
            let ghost prefix = all.take(i as int);
            let ghost cur = all[i as int];
            proof {
                assert(all[i as int] == tokens@[i as int]@);
                lemma_stripped_snoc(prefix, cur, "tag:"@);
                lemma_stripped_snoc(prefix, cur, "domain:"@);
                lemma_stripped_snoc(prefix, cur, "username:"@);
                lemma_bare_snoc(prefix, cur);
                lemma_prefixes_exclusive(cur);
                assert(prefix.push(cur) =~= all.take(i + 1 as int));
            }
            let token = &tokens[i];
            if let Some(rest) = strip_prefix_token(token.as_str(), "tag:") {
                let ghost old_v = tag_tokens@;
                tag_tokens.push(rest);
                proof {
                    lemma_views_of_push(old_v, rest);
                }
            } else if let Some(rest) = strip_prefix_token(token.as_str(), "domain:") {
                let ghost old_v = domain_tokens@;
                domain_tokens.push(rest);
                proof {
                    lemma_views_of_push(old_v, rest);
                }
            } else if let Some(rest) = strip_prefix_token(token.as_str(), "username:") {
                let ghost old_v = username_tokens@;
                username_tokens.push(rest);
                proof {
                    lemma_views_of_push(old_v, rest);
                }
            } else {
                let ghost old_v = fts_tokens@;
                let item = token.clone();
                fts_tokens.push(item);
                proof {
                    lemma_views_of_push(old_v, item);
                }
            }
            i = i + 1;
        }
        proof {
            assert(all.take(all.len() as int) =~= all);
        }
        SearchQuery { username_tokens, domain_tokens, tag_tokens, fts_tokens }
    }
}


/// A term rendered for the index query syntax: every double quote doubled.
pub open spec fn quote_doubled(t: Seq<char>) -> Seq<char>
    decreases t.len(),
{
    if t.len() == 0 {
        Seq::empty()
    } else if t[0] == '"' {
        seq!['"', '"'] + quote_doubled(t.drop_first())
    } else {
        seq![t[0]] + quote_doubled(t.drop_first())
    }
}

/// Doubling one more character appends its rendering.
proof fn lemma_quote_doubled_snoc(t: Seq<char>, c: char)
    ensures
        quote_doubled(t.push(c)) == quote_doubled(t) + (if c == '"' {
            seq!['"', '"']
        } else {
            seq![c]
        }),
    decreases t.len(),
{
    if t.len() == 0 {
        assert(t =~= Seq::<char>::empty());
        assert(t.push(c)[0] == c);
        assert(t.push(c).drop_first() =~= t);
        if c == '"' {
            assert(quote_doubled(t.push(c)) == seq!['"', '"'] + quote_doubled(t));
            assert(quote_doubled(t) == Seq::<char>::empty());
            assert(seq!['"', '"'] + quote_doubled(t) =~= quote_doubled(t) + seq!['"', '"']);
        } else {
            assert(quote_doubled(t.push(c)) == seq![c] + quote_doubled(t));
            assert(quote_doubled(t) == Seq::<char>::empty());
            assert(seq![c] + quote_doubled(t) =~= quote_doubled(t) + seq![c]);
        }
    } else {
        assert(t.push(c)[0] == t[0]);
        assert(t.push(c).drop_first() =~= t.drop_first().push(c));
        lemma_quote_doubled_snoc(t.drop_first(), c);
        let unit = if c == '"' {
            seq!['"', '"']
        } else {
            seq![c]
        };
        let head = if t[0] == '"' {
            seq!['"', '"']
        } else {
            seq![t[0]]
        };
        assert(quote_doubled(t.push(c)) == head + (quote_doubled(t.drop_first()) + unit));
        assert(quote_doubled(t) == head + quote_doubled(t.drop_first()));
        assert(head + (quote_doubled(t.drop_first()) + unit) =~= quote_doubled(t) + unit);
    }
}

/// A term wrapped in double quotes, its own quotes doubled.
pub open spec fn quoted_term(t: Seq<char>) -> Seq<char> {
    seq!['"'] + quote_doubled(t) + seq!['"']
}

/// The quoted terms of one kind joined by ` OR `.
pub open spec fn or_joined(tokens: Seq<Seq<char>>) -> Seq<char>
    decreases tokens.len(),
{
    if tokens.len() == 0 {
        Seq::empty()
    } else if tokens.len() == 1 {
        quoted_term(tokens[0])
    } else {
        quoted_term(tokens[0]) + " OR "@ + or_joined(tokens.drop_first())
    }
}

/// Joining one more term appends ` OR ` and the quoted term.
proof fn lemma_or_joined_snoc(tokens: Seq<Seq<char>>, t: Seq<char>)
    ensures
        or_joined(tokens.push(t)) == if tokens.len() == 0 {
            quoted_term(t)
        } else {
            or_joined(tokens) + " OR "@ + quoted_term(t)
        },
    decreases tokens.len(),
{
    if tokens.len() == 0 {
        assert(tokens.push(t).len() == 1);
        assert(tokens.push(t)[0] == t);
        assert(or_joined(tokens.push(t)) == quoted_term(t));
    } else {
        assert(tokens.push(t)[0] == tokens[0]);
        assert(tokens.push(t).drop_first() =~= tokens.drop_first().push(t));
        lemma_or_joined_snoc(tokens.drop_first(), t);
        assert(or_joined(tokens.push(t)) == quoted_term(tokens[0]) + " OR "@ + or_joined(
            tokens.drop_first().push(t),
        ));
        if tokens.len() == 1 {
            assert(tokens.drop_first().len() == 0);
            assert(or_joined(tokens.drop_first().push(t)) == quoted_term(t));
            assert(or_joined(tokens) == quoted_term(tokens[0]));
            assert(quoted_term(tokens[0]) + " OR "@ + quoted_term(t) =~= or_joined(tokens)
                + " OR "@ + quoted_term(t));
        } else {
            assert(or_joined(tokens.drop_first().push(t)) == or_joined(tokens.drop_first())
                + " OR "@ + quoted_term(t));
            assert(or_joined(tokens) == quoted_term(tokens[0]) + " OR "@ + or_joined(
                tokens.drop_first(),
            ));
            assert(quoted_term(tokens[0]) + " OR "@ + (or_joined(tokens.drop_first()) + " OR "@
                + quoted_term(t)) =~= or_joined(tokens) + " OR "@ + quoted_term(t));
        }
    }
}

/// One field group of the index query: the opening text, the OR-joined
/// quoted terms, and a closing parenthesis.
pub open spec fn query_group(opening: Seq<char>, tokens: Seq<Seq<char>>) -> Seq<char> {
    opening + or_joined(tokens) + ")"@
}

/// The groups joined by ` AND `.
pub open spec fn and_joined(parts: Seq<Seq<char>>) -> Seq<char>
    decreases parts.len(),
{
    if parts.len() == 0 {
        Seq::empty()
    } else if parts.len() == 1 {
        parts[0]
    } else {
        parts[0] + " AND "@ + and_joined(parts.drop_first())
    }
}

/// Joining one more group appends ` AND ` and the group.
proof fn lemma_and_joined_snoc(parts: Seq<Seq<char>>, p: Seq<char>)
    ensures
        and_joined(parts.push(p)) == if parts.len() == 0 {
            p
        } else {
            and_joined(parts) + " AND "@ + p
        },
    decreases parts.len(),
{
    if parts.len() == 0 {
        assert(parts.push(p).len() == 1);
        assert(parts.push(p)[0] == p);
        assert(and_joined(parts.push(p)) == p);
    } else {
        assert(parts.push(p)[0] == parts[0]);
        assert(parts.push(p).drop_first() =~= parts.drop_first().push(p));
        lemma_and_joined_snoc(parts.drop_first(), p);
        assert(and_joined(parts.push(p)) == parts[0] + " AND "@ + and_joined(
            parts.drop_first().push(p),
        ));
        if parts.len() == 1 {
            assert(parts.drop_first().len() == 0);
            assert(and_joined(parts.drop_first().push(p)) == p);
            assert(and_joined(parts) == parts[0]);
            assert(parts[0] + " AND "@ + p =~= and_joined(parts) + " AND "@ + p);
        } else {
            assert(and_joined(parts.drop_first().push(p)) == and_joined(parts.drop_first())
                + " AND "@ + p);
            assert(and_joined(parts) == parts[0] + " AND "@ + and_joined(parts.drop_first()));
            assert(parts[0] + " AND "@ + (and_joined(parts.drop_first()) + " AND "@ + p)
                =~= and_joined(parts) + " AND "@ + p);
        }
    }
}

/// The full index query of a parsed search: one group per non-empty kind —
/// free text first, then username, domain and tags — AND-joined; nothing
/// when the query has no terms.
pub open spec fn fts_query_of(
    u: Seq<Seq<char>>,
    d: Seq<Seq<char>>,
    t: Seq<Seq<char>>,
    f: Seq<Seq<char>>,
) -> Option<Seq<char>> {
    let parts = (if f.len() > 0 {
        seq![query_group("({domain username tags notes}: "@, f)]
    } else {
        Seq::empty()
    }) + (if u.len() > 0 {
        seq![query_group("({username}: "@, u)]
    } else {
        Seq::empty()
    }) + (if d.len() > 0 {
        seq![query_group("({domain}: "@, d)]
    } else {
        Seq::empty()
    }) + (if t.len() > 0 {
        seq![query_group("({tags}: "@, t)]
    } else {
        Seq::empty()
    });
    if parts.len() == 0 {
        None
    } else {
        Some(and_joined(parts))
    }
}

/// Renders one field group: the opening text, the OR-joined quoted terms,
/// and the closing parenthesis.
fn render_group(opening: &str, tokens: &Vec<String>) -> (r: String)
    requires
        tokens@.len() > 0,
    ensures
        r@ == query_group(opening@, views_of(tokens@)),
{
    let ghost toks = views_of(tokens@);
    let mut out = String::new();
    out.append(opening);
    let mut i: usize = 0;
    while i < tokens.len()
        invariant
            toks == views_of(tokens@),
            toks.len() == tokens@.len(),
            i <= toks.len(),
            out@ == opening@ + or_joined(toks.take(i as int)),
        decreases toks.len() - i,
    {
        let ghost prefix = toks.take(i as int);
        if i > 0 {
            out.append(" OR ");
        }
        push_char(&mut out, '"');
        let cs = str_chars(tokens[i].as_str());
        let ghost term = toks[i as int];
        proof {
            assert(toks[i as int] == tokens@[i as int]@);
        }
        let ghost mid = out@;
        let mut j: usize = 0;
        while j < cs.len()
            invariant
                cs@ == term,
                j <= term.len(),
                out@ == mid + quote_doubled(term.take(j as int)),
            decreases term.len() - j,
        {
            let c = cs[j];
            if c == '"' {
                push_char(&mut out, '"');
                push_char(&mut out, '"');
            } else {
                push_char(&mut out, c);
            }
            proof {
                lemma_quote_doubled_snoc(term.take(j as int), term[j as int]);
                assert(term.take(j as int).push(term[j as int]) =~= term.take(j + 1 as int));
                assert(out@ =~= mid + quote_doubled(term.take(j + 1 as int)));
            }
            j = j + 1;
        }
        push_char(&mut out, '"');
        proof {
            assert(term.take(term.len() as int) =~= term);
            lemma_or_joined_snoc(prefix, term);
            assert(prefix.push(term) =~= toks.take(i + 1 as int));
            assert(out@ =~= opening@ + or_joined(toks.take(i + 1 as int)));
        }
        i = i + 1;
    }
    proof {
        assert(toks.take(toks.len() as int) =~= toks);
    }
    out.append(")");
    proof {
        assert(out@ =~= query_group(opening@, toks));
    }
    out
}

impl SearchQuery {
    /// Renders the query in the index's own syntax, quote characters
    /// doubled so a term can never break out of its quoting; nothing when
    /// the query has no terms.
    pub fn to_fts_query(&self) -> (r: Option<String>)
        ensures
            ({
                let q = fts_query_of(
                    views_of(self.username_tokens@),
                    views_of(self.domain_tokens@),
                    views_of(self.tag_tokens@),
                    views_of(self.fts_tokens@),
                );
                match r {
                    Some(text) => q == Some(text@),
                    None => q is None,
                }
            }),
    {
        let ghost u = views_of(self.username_tokens@);
        let ghost d = views_of(self.domain_tokens@);
        let ghost t = views_of(self.tag_tokens@);
        let ghost f = views_of(self.fts_tokens@);
        let mut parts: Vec<String> = Vec::new();
        if self.fts_tokens.len() > 0 {
            let ghost pv = parts@;
            let g = render_group("({domain username tags notes}: ", &self.fts_tokens);
            parts.push(g);
            proof {
                lemma_views_of_push(pv, g);
            }
        }
        if self.username_tokens.len() > 0 {
            let ghost pv = parts@;
            let g = render_group("({username}: ", &self.username_tokens);
            parts.push(g);
            proof {
                lemma_views_of_push(pv, g);
            }
        }
        if self.domain_tokens.len() > 0 {
            let ghost pv = parts@;
            let g = render_group("({domain}: ", &self.domain_tokens);
            parts.push(g);
            proof {
                lemma_views_of_push(pv, g);
            }
        }
        if self.tag_tokens.len() > 0 {
            let ghost pv = parts@;
            let g = render_group("({tags}: ", &self.tag_tokens);
            parts.push(g);
            proof {
                lemma_views_of_push(pv, g);
            }
        }
        let ghost spec_parts = (if f.len() > 0 {
            seq![query_group("({domain username tags notes}: "@, f)]
        } else {
            Seq::<Seq<char>>::empty()
        }) + (if u.len() > 0 {
            seq![query_group("({username}: "@, u)]
        } else {
            Seq::<Seq<char>>::empty()
        }) + (if d.len() > 0 {
            seq![query_group("({domain}: "@, d)]
        } else {
            Seq::<Seq<char>>::empty()
        }) + (if t.len() > 0 {
            seq![query_group("({tags}: "@, t)]
        } else {
            Seq::<Seq<char>>::empty()
        });
        proof {
            assert(views_of(parts@) =~= spec_parts);
        }
        if parts.len() == 0 {
            return None;
        }
        let mut out = String::new();
        let mut i: usize = 0;
        while i < parts.len()
            invariant
                views_of(parts@) == spec_parts,
                parts@.len() == spec_parts.len(),
                i <= spec_parts.len(),
                out@ == and_joined(spec_parts.take(i as int)),
            decreases spec_parts.len() - i,
        {
            let ghost prefix = spec_parts.take(i as int);
            if i > 0 {
                out.append(" AND ");
            }
            out.append(parts[i].as_str());
            proof {
                assert(spec_parts[i as int] == parts@[i as int]@);
                lemma_and_joined_snoc(prefix, spec_parts[i as int]);
                assert(prefix.push(spec_parts[i as int]) =~= spec_parts.take(i + 1 as int));
                assert(out@ =~= and_joined(spec_parts.take(i + 1 as int)));
            }
            i = i + 1;
        }
        proof {
            assert(spec_parts.take(spec_parts.len() as int) =~= spec_parts);
        }
        Some(out)
    }
}


/// ASCII lowercasing of one character.
pub open spec fn lower_char_spec(c: char) -> char {
    if 65 <= c as u32 && c as u32 <= 90 {
        ((c as u32 + 32) as u8) as char
    } else {
        c
    }
}

/// ASCII lowercasing of a text.
pub open spec fn lower_seq(t: Seq<char>) -> Seq<char> {
    Seq::new(t.len(), |i: int| lower_char_spec(t[i]))
}

/// Lowercases a term's characters.
pub(crate) fn lower_chars(v: &Vec<char>) -> (r: Vec<char>)
    ensures
        r@ == lower_seq(v@),
{
    let mut out: Vec<char> = Vec::new();
    let mut i: usize = 0;
    while i < v.len()
        invariant
            i <= v@.len(),
            out@ == lower_seq(v@).take(i as int),
        decreases v@.len() - i,
    {
        let c = v[i];
        let code = c as u32;
        if 65 <= code && code <= 90 {
            let low = ((code + 32) as u8) as char;
            proof {
                assert(low as u32 == code + 32);
                lemma_char_code_inj(low, lower_char_spec(v@[i as int]));
            }
            out.push(low);
        } else {
            out.push(c);
        }
        proof {
            assert(out@ =~= lower_seq(v@).take(i + 1 as int));
        }
        i = i + 1;
    }
    proof {
        assert(lower_seq(v@).take(v@.len() as int) =~= lower_seq(v@));
    }
    out
}

/// Whether `c` belongs to a word: an ASCII letter or digit.
pub open spec fn is_word_char(c: char) -> bool {
    ||| crate::charset::is_lower_char(c)
    ||| crate::charset::is_upper_char(c)
    ||| crate::charset::is_digit_char(c)
}

/// The lowercased maximal alphanumeric runs of a text, from position `i`,
/// with the run read so far and the runs already collected.
pub open spec fn words_from(s: Seq<char>, i: int, cur: Seq<char>, acc: Seq<Seq<char>>) -> Seq<
    Seq<char>,
>
    decreases s.len() - i,
{
    if i < 0 || i >= s.len() {
        if cur.len() > 0 {
            acc.push(cur)
        } else {
            acc
        }
    } else if is_word_char(s[i]) {
        words_from(s, i + 1, cur.push(lower_char_spec(s[i])), acc)
    } else {
        if cur.len() > 0 {
            words_from(s, i + 1, Seq::empty(), acc.push(cur))
        } else {
            words_from(s, i + 1, Seq::empty(), acc)
        }
    }
}

/// The lowercased words of a text.
pub open spec fn words_of(s: Seq<char>) -> Seq<Seq<char>> {
    words_from(s, 0, Seq::empty(), Seq::empty())
}

/// Splits a text into its lowercased words.
fn split_words(s: &str) -> (r: Vec<String>)
    ensures
        views_of(r@) == words_of(s@),
{
    let cs = str_chars(s);
    let mut out: Vec<String> = Vec::new();
    let mut cur: Vec<char> = Vec::new();
    let mut i: usize = 0;
    proof {
        assert(views_of(out@) =~= Seq::<Seq<char>>::empty());
        assert(cur@ =~= Seq::<char>::empty());
    }
    while i < cs.len()
        invariant
            cs@ == s@,
            i <= cs@.len(),
            words_of(s@) == words_from(s@, i as int, cur@, views_of(out@)),
        decreases cs@.len() - i,
    {
        let ghost out_old = views_of(out@);
        let ghost cur_old = cur@;
        let c = cs[i];
        let code = c as u32;
        if (97 <= code && code <= 122) || (65 <= code && code <= 90) || (48 <= code && code <= 57) {
            proof {
                assert(is_word_char(s@[i as int]));
            }
            if 65 <= code && code <= 90 {
                let low = ((code + 32) as u8) as char;
                proof {
                    assert(low as u32 == code + 32);
                    lemma_char_code_inj(low, lower_char_spec(s@[i as int]));
                }
                cur.push(low);
            } else {
                cur.push(c);
                proof {
                    assert(lower_char_spec(s@[i as int]) == s@[i as int]);
                }
            }
            proof {
                assert(cur@ == cur_old.push(lower_char_spec(s@[i as int])));
                assert(words_from(s@, i as int, cur_old, out_old) == words_from(
                    s@,
                    i + 1,
                    cur_old.push(lower_char_spec(s@[i as int])),
                    out_old,
                ));
            }
        } else {
            proof {
                assert(!is_word_char(s@[i as int]));
            }
            if cur.len() > 0 {
                let ghost ov = out@;
                let word = chars_to_string(&cur);
                out.push(word);
                proof {
                    lemma_views_of_push(ov, word);
                    assert(views_of(out@) == out_old.push(cur_old));
                }
                cur = Vec::new();
            }
            proof {
                assert(cur@ =~= Seq::<char>::empty());
                if cur_old.len() > 0 {
                    assert(words_from(s@, i as int, cur_old, out_old) == words_from(
                        s@,
                        i + 1,
                        Seq::empty(),
                        out_old.push(cur_old),
                    ));
                } else {
                    assert(cur_old =~= Seq::<char>::empty());
                    assert(words_from(s@, i as int, cur_old, out_old) == words_from(
                        s@,
                        i + 1,
                        Seq::empty(),
                        out_old,
                    ));
                }
            }
        }
        i = i + 1;
    }
    if cur.len() > 0 {
        let ghost out_old = out@;
        let word = chars_to_string(&cur);
        out.push(word);
        proof {
            lemma_views_of_push(out_old, word);
        }
    }
    out
}

/// Whether a term matches a text: its lowercased form equals one of the
/// text's lowercased words.
pub open spec fn term_matches_text(term: Seq<char>, text: Seq<char>) -> bool {
    words_of(text).contains(lower_seq(term))
}

/// Whether a term matches a text.
fn term_in_text(term: &str, text: &str) -> (r: bool)
    ensures
        r == term_matches_text(term@, text@),
{
    let tc = str_chars(term);
    let low = lower_chars(&tc);
    let words = split_words(text);
    let ghost wviews = words_of(text@);
    let mut i: usize = 0;
    while i < words.len()
        invariant
            wviews == words_of(text@),
            views_of(words@) == wviews,
            words@.len() == wviews.len(),
            i <= wviews.len(),
            low@ == lower_seq(term@),
            forall|k: int| 0 <= k < i ==> wviews[k] != lower_seq(term@),
        decreases wviews.len() - i,
    {
        proof {
            assert(wviews[i as int] == words@[i as int]@);
        }
        let wc = str_chars(words[i].as_str());
        let mut same = wc.len() == low.len();
        let mut j: usize = 0;
        while same && j < wc.len()
            invariant
                wc@ == words@[i as int]@,
                low@ == lower_seq(term@),
                j <= wc@.len(),
                same ==> wc@.len() == low@.len() && (forall|k: int|
                    0 <= k < j ==> wc@[k] == low@[k]),
                !same ==> wc@ != low@,
            decreases wc@.len() - j,
        {
            if wc[j] != low[j] {
                proof {
                    assert(wc@[j as int] != low@[j as int]);
                }
                same = false;
            }
            j = j + 1;
        }
        if same {
            proof {
                assert(wc@ =~= low@);
                assert(wviews[i as int] == lower_seq(term@));
                assert(wviews.contains(lower_seq(term@)));
            }
            return true;
        }
        proof {
            assert(wc@ != low@);
            assert(wviews[i as int] != lower_seq(term@));
        }
        i = i + 1;
    }
    proof {
        if wviews.contains(lower_seq(term@)) {
            let k = choose|k: int| 0 <= k < wviews.len() && wviews[k] == lower_seq(term@);
            assert(false);
        }
    }
    false
}

/// The searchable text of an optional field: empty when absent.
pub open spec fn opt_text(o: Option<Seq<char>>) -> Seq<char> {
    match o {
        Some(s) => s,
        None => Seq::empty(),
    }
}

/// Whether a free-text term matches a key: it matches the domain, the
/// username, the joined tags or the notes.
pub open spec fn free_term_matches(term: Seq<char>, k: KeyItem) -> bool {
    ||| term_matches_text(term, k.domain@)
    ||| term_matches_text(term, k.username@)
    ||| term_matches_text(term, joined_tags(k.tags@, ' '))
    ||| term_matches_text(term, opt_text(opt_view(k.notes)))
}

/// How many free-text terms from position `i` on match the key.
pub open spec fn count_free_from(tokens: Seq<Seq<char>>, i: int, k: KeyItem) -> int
    decreases tokens.len() - i,
{
    if i < 0 || i >= tokens.len() {
        0
    } else {
        (if free_term_matches(tokens[i], k) {
            1int
        } else {
            0int
        }) + count_free_from(tokens, i + 1, k)
    }
}

/// How many username terms from position `i` on match the key.
pub open spec fn count_username_from(tokens: Seq<Seq<char>>, i: int, k: KeyItem) -> int
    decreases tokens.len() - i,
{
    if i < 0 || i >= tokens.len() {
        0
    } else {
        (if term_matches_text(tokens[i], k.username@) {
            1int
        } else {
            0int
        }) + count_username_from(tokens, i + 1, k)
    }
}

/// How many domain terms from position `i` on match the key.
pub open spec fn count_domain_from(tokens: Seq<Seq<char>>, i: int, k: KeyItem) -> int
    decreases tokens.len() - i,
{
    if i < 0 || i >= tokens.len() {
        0
    } else {
        (if term_matches_text(tokens[i], k.domain@) {
            1int
        } else {
            0int
        }) + count_domain_from(tokens, i + 1, k)
    }
}

/// How many tag terms from position `i` on match the key.
pub open spec fn count_tag_from(tokens: Seq<Seq<char>>, i: int, k: KeyItem) -> int
    decreases tokens.len() - i,
{
    if i < 0 || i >= tokens.len() {
        0
    } else {
        (if term_matches_text(tokens[i], joined_tags(k.tags@, ' ')) {
            1int
        } else {
            0int
        }) + count_tag_from(tokens, i + 1, k)
    }
}

/// Whether a key satisfies the query: within each kind some term matches
/// (OR), and every non-empty kind must be satisfied (AND).
pub open spec fn key_matches(
    u: Seq<Seq<char>>,
    d: Seq<Seq<char>>,
    t: Seq<Seq<char>>,
    f: Seq<Seq<char>>,
    k: KeyItem,
) -> bool {
    &&& (f.len() == 0 || count_free_from(f, 0, k) > 0)
    &&& (u.len() == 0 || count_username_from(u, 0, k) > 0)
    &&& (d.len() == 0 || count_domain_from(d, 0, k) > 0)
    &&& (t.len() == 0 || count_tag_from(t, 0, k) > 0)
}

/// The key's relevance: how many terms of the whole query match it.
pub open spec fn key_rank(
    u: Seq<Seq<char>>,
    d: Seq<Seq<char>>,
    t: Seq<Seq<char>>,
    f: Seq<Seq<char>>,
    k: KeyItem,
) -> int {
    count_free_from(f, 0, k) + count_username_from(u, 0, k) + count_domain_from(d, 0, k)
        + count_tag_from(t, 0, k)
}

/// Counts, kind by kind, how many terms of the query match the key.
fn key_counts(query: &SearchQuery, key: &KeyItem) -> (r: (usize, usize, usize, usize))
    ensures
        r.0 == count_free_from(views_of(query.fts_tokens@), 0, *key),
        r.1 == count_username_from(views_of(query.username_tokens@), 0, *key),
        r.2 == count_domain_from(views_of(query.domain_tokens@), 0, *key),
        r.3 == count_tag_from(views_of(query.tag_tokens@), 0, *key),
        r.0 <= query.fts_tokens@.len(),
        r.1 <= query.username_tokens@.len(),
        r.2 <= query.domain_tokens@.len(),
        r.3 <= query.tag_tokens@.len(),
{
    let tags_text = key.tags.join(' ');
    let empty_text = String::new();
    let ghost fviews = views_of(query.fts_tokens@);
    let ghost uviews = views_of(query.username_tokens@);
    let ghost dviews = views_of(query.domain_tokens@);
    let ghost tviews = views_of(query.tag_tokens@);

    let mut cf: usize = 0;
    let mut i: usize = query.fts_tokens.len();
    while i > 0
        invariant
            fviews == views_of(query.fts_tokens@),
            fviews.len() == query.fts_tokens@.len(),
            fviews.len() <= usize::MAX,
            i <= fviews.len(),
            tags_text@ == joined_tags(key.tags@, ' '),
            empty_text@ == Seq::<char>::empty(),
            cf == count_free_from(fviews, i as int, *key),
            cf <= fviews.len() - i,
        decreases i,
    {
        i = i - 1;
        proof {
            assert(fviews[i as int] == query.fts_tokens@[i as int]@);
        }
        let tok = query.fts_tokens[i].as_str();
        let notes_text: &str = match &key.notes {
            Some(s) => s.as_str(),
            None => empty_text.as_str(),
        };
        proof {
            assert(notes_text@ == opt_text(opt_view(key.notes)));
        }
        let m = term_in_text(tok, key.domain.as_str()) || term_in_text(tok, key.username.as_str())
            || term_in_text(tok, tags_text.as_str()) || term_in_text(tok, notes_text);
        proof {
            assert(m == free_term_matches(fviews[i as int], *key));
        }
        if m {
            cf = cf + 1;
        }
    }

    let mut cu: usize = 0;
    let mut j: usize = query.username_tokens.len();
    while j > 0
        invariant
            uviews == views_of(query.username_tokens@),
            uviews.len() == query.username_tokens@.len(),
            uviews.len() <= usize::MAX,
            j <= uviews.len(),
            cu == count_username_from(uviews, j as int, *key),
            cu <= uviews.len() - j,
        decreases j,
    {
        j = j - 1;
        proof {
            assert(uviews[j as int] == query.username_tokens@[j as int]@);
        }
        if term_in_text(query.username_tokens[j].as_str(), key.username.as_str()) {
            cu = cu + 1;
        }
    }

    let mut cd: usize = 0;
    let mut m2: usize = query.domain_tokens.len();
    while m2 > 0
        invariant
            dviews == views_of(query.domain_tokens@),
            dviews.len() == query.domain_tokens@.len(),
            dviews.len() <= usize::MAX,
            m2 <= dviews.len(),
            cd == count_domain_from(dviews, m2 as int, *key),
            cd <= dviews.len() - m2,
        decreases m2,
    {
        m2 = m2 - 1;
        proof {
            assert(dviews[m2 as int] == query.domain_tokens@[m2 as int]@);
        }
        if term_in_text(query.domain_tokens[m2].as_str(), key.domain.as_str()) {
            cd = cd + 1;
        }
    }

    let mut ct: usize = 0;
    let mut n2: usize = query.tag_tokens.len();
    while n2 > 0
        invariant
            tviews == views_of(query.tag_tokens@),
            tviews.len() == query.tag_tokens@.len(),
            tviews.len() <= usize::MAX,
            n2 <= tviews.len(),
            tags_text@ == joined_tags(key.tags@, ' '),
            ct == count_tag_from(tviews, n2 as int, *key),
            ct <= tviews.len() - n2,
        decreases n2,
    {
        n2 = n2 - 1;
        proof {
            assert(tviews[n2 as int] == query.tag_tokens@[n2 as int]@);
        }
        if term_in_text(query.tag_tokens[n2].as_str(), tags_text.as_str()) {
            ct = ct + 1;
        }
    }

    (cf, cu, cd, ct)
}

/// The keys matching the query at exactly the given rank, in storage order.
pub open spec fn keys_matching_rank(
    keys: Seq<KeyItem>,
    u: Seq<Seq<char>>,
    d: Seq<Seq<char>>,
    t: Seq<Seq<char>>,
    f: Seq<Seq<char>>,
    r: int,
) -> Seq<KeyItem>
    decreases keys.len(),
{
    if keys.len() == 0 {
        Seq::empty()
    } else {
        let rest = keys_matching_rank(keys.drop_first(), u, d, t, f, r);
        if key_matches(u, d, t, f, keys[0]) && key_rank(u, d, t, f, keys[0]) == r {
            seq![keys[0]] + rest
        } else {
            rest
        }
    }
}

/// Filtering one more key appends it exactly when it matches at the rank.
proof fn lemma_matching_rank_snoc(
    keys: Seq<KeyItem>,
    k: KeyItem,
    u: Seq<Seq<char>>,
    d: Seq<Seq<char>>,
    t: Seq<Seq<char>>,
    f: Seq<Seq<char>>,
    r: int,
)
    ensures
        keys_matching_rank(keys.push(k), u, d, t, f, r) == if key_matches(u, d, t, f, k)
            && key_rank(u, d, t, f, k) == r {
            keys_matching_rank(keys, u, d, t, f, r) + seq![k]
        } else {
            keys_matching_rank(keys, u, d, t, f, r)
        },
    decreases keys.len(),
{
    if keys.len() == 0 {
        assert(keys =~= Seq::<KeyItem>::empty());
        assert(keys.push(k)[0] == k);
        assert(keys.push(k).drop_first() =~= keys);
        if key_matches(u, d, t, f, k) && key_rank(u, d, t, f, k) == r {
            assert(keys_matching_rank(keys.push(k), u, d, t, f, r) == seq![k]
                + keys_matching_rank(keys, u, d, t, f, r));
            assert(keys_matching_rank(keys, u, d, t, f, r) == Seq::<KeyItem>::empty());
            assert(seq![k] + keys_matching_rank(keys, u, d, t, f, r) =~= keys_matching_rank(
                keys,
                u,
                d,
                t,
                f,
                r,
            ) + seq![k]);
        }
    } else {
        assert(keys.push(k)[0] == keys[0]);
        assert(keys.push(k).drop_first() =~= keys.drop_first().push(k));
        lemma_matching_rank_snoc(keys.drop_first(), k, u, d, t, f, r);
        if key_matches(u, d, t, f, keys[0]) && key_rank(u, d, t, f, keys[0]) == r
            && key_matches(u, d, t, f, k) && key_rank(u, d, t, f, k) == r {
            assert(seq![keys[0]] + (keys_matching_rank(keys.drop_first(), u, d, t, f, r) + seq![
                k,
            ]) =~= (seq![keys[0]] + keys_matching_rank(keys.drop_first(), u, d, t, f, r)) + seq![
                k,
            ]);
        }
    }
}

/// The matching keys with ranks strictly above `lo`, best rank first, ties
/// in storage order.
pub open spec fn ranked_above(
    keys: Seq<KeyItem>,
    u: Seq<Seq<char>>,
    d: Seq<Seq<char>>,
    t: Seq<Seq<char>>,
    f: Seq<Seq<char>>,
    hi: int,
    lo: int,
) -> Seq<KeyItem>
    decreases hi - lo,
{
    if hi <= lo {
        Seq::empty()
    } else {
        keys_matching_rank(keys, u, d, t, f, hi) + ranked_above(keys, u, d, t, f, hi - 1, lo)
    }
}

/// Lowering the floor by one appends that rank's matches at the end.
proof fn lemma_ranked_above_step(
    keys: Seq<KeyItem>,
    u: Seq<Seq<char>>,
    d: Seq<Seq<char>>,
    t: Seq<Seq<char>>,
    f: Seq<Seq<char>>,
    hi: int,
    lo: int,
)
    requires
        lo < hi,
    ensures
        ranked_above(keys, u, d, t, f, hi, lo) == ranked_above(keys, u, d, t, f, hi, lo + 1)
            + keys_matching_rank(keys, u, d, t, f, lo + 1),
    decreases hi - lo,
{
    if hi == lo + 1 {
        assert(ranked_above(keys, u, d, t, f, hi - 1, lo) == Seq::<KeyItem>::empty());
        assert(ranked_above(keys, u, d, t, f, hi, lo + 1) == Seq::<KeyItem>::empty());
        assert(keys_matching_rank(keys, u, d, t, f, hi) + Seq::<KeyItem>::empty()
            =~= keys_matching_rank(keys, u, d, t, f, hi));
        assert(Seq::<KeyItem>::empty() + keys_matching_rank(keys, u, d, t, f, lo + 1)
            =~= keys_matching_rank(keys, u, d, t, f, lo + 1));
    } else {
        lemma_ranked_above_step(keys, u, d, t, f, hi - 1, lo);
        assert(keys_matching_rank(keys, u, d, t, f, hi) + (ranked_above(
            keys,
            u,
            d,
            t,
            f,
            hi - 1,
            lo + 1,
        ) + keys_matching_rank(keys, u, d, t, f, lo + 1)) =~= (keys_matching_rank(
            keys,
            u,
            d,
            t,
            f,
            hi,
        ) + ranked_above(keys, u, d, t, f, hi - 1, lo + 1)) + keys_matching_rank(
            keys,
            u,
            d,
            t,
            f,
            lo + 1,
        ));
    }
}

impl ProfileDB {
    /// Runs a search.  A query with no terms returns every key unranked, in
    /// storage order.  Otherwise the matching keys come back ordered by how
    /// many terms match, best first, ties in storage order; a key matches
    /// when every non-empty kind has some matching term.
    pub fn search_keys(&self, query: &SearchQuery) -> (r: Result<Vec<KeyItem>, Error>)
        requires
            self.wf(),
            query.fts_tokens@.len() + query.username_tokens@.len() + query.domain_tokens@.len()
                + query.tag_tokens@.len() <= usize::MAX,
        ensures
            ({
                let u = views_of(query.username_tokens@);
                let d = views_of(query.domain_tokens@);
                let t = views_of(query.tag_tokens@);
                let f = views_of(query.fts_tokens@);
                let total = u.len() + d.len() + t.len() + f.len();
                let expected = if total == 0 {
                    self.spec_keys()
                } else {
                    ranked_above(self.spec_keys(), u, d, t, f, total as int, 0)
                };
                &&& r matches Ok(v)
                &&& v@.len() == expected.len()
                &&& forall|i: int| 0 <= i < expected.len() ==> key_eq(#[trigger] v@[i], expected[i])
            }),
    {
        let ghost u = views_of(query.username_tokens@);
        let ghost d = views_of(query.domain_tokens@);
        let ghost t = views_of(query.tag_tokens@);
        let ghost f = views_of(query.fts_tokens@);
        let total = query.fts_tokens.len() + query.username_tokens.len()
            + query.domain_tokens.len() + query.tag_tokens.len();
        let mut out: Vec<KeyItem> = Vec::new();
        if total == 0 {
            let mut i: usize = 0;
            while i < self.keys.len()
                invariant
                    self.wf(),
                    i <= self.spec_keys().len(),
                    out@.len() == i,
                    forall|j: int|
                        0 <= j < i ==> key_eq(#[trigger] out@[j], self.spec_keys()[j]),
                decreases self.spec_keys().len() - i,
            {
                let item = clone_key(&self.keys[i]);
                out.push(item);
                i = i + 1;
            }
            return Ok(out);
        }
        let mut rank: usize = total;
        while rank > 0
            invariant
                self.wf(),
                u == views_of(query.username_tokens@),
                d == views_of(query.domain_tokens@),
                t == views_of(query.tag_tokens@),
                f == views_of(query.fts_tokens@),
                total == u.len() + d.len() + t.len() + f.len(),
                total <= usize::MAX,
                rank <= total,
                out@.len() == ranked_above(
                    self.spec_keys(),
                    u,
                    d,
                    t,
                    f,
                    total as int,
                    rank as int,
                ).len(),
                forall|j: int|
                    0 <= j < out@.len() ==> key_eq(
                        #[trigger] out@[j],
                        ranked_above(self.spec_keys(), u, d, t, f, total as int, rank as int)[j],
                    ),
            decreases rank,
        {
            let ghost base = ranked_above(self.spec_keys(), u, d, t, f, total as int, rank as int);
            let mut i: usize = 0;
            while i < self.keys.len()
                invariant
                    self.wf(),
                    u == views_of(query.username_tokens@),
                    d == views_of(query.domain_tokens@),
                    t == views_of(query.tag_tokens@),
                    f == views_of(query.fts_tokens@),
                    total == u.len() + d.len() + t.len() + f.len(),
                    total <= usize::MAX,
                    1 <= rank <= total,
                    base == ranked_above(self.spec_keys(), u, d, t, f, total as int, rank as int),
                    i <= self.spec_keys().len(),
                    out@.len() == base.len() + keys_matching_rank(
                        self.spec_keys().take(i as int),
                        u,
                        d,
                        t,
                        f,
                        rank as int,
                    ).len(),
                    forall|j: int|
                        0 <= j < out@.len() ==> key_eq(
                            #[trigger] out@[j],
                            (base + keys_matching_rank(
                                self.spec_keys().take(i as int),
                                u,
                                d,
                                t,
                                f,
                                rank as int,
                            ))[j],
                        ),
                decreases self.spec_keys().len() - i,
            {
                let ghost prefix = self.spec_keys().take(i as int);
                let ghost cur = self.spec_keys()[i as int];
                let counts = key_counts(query, &self.keys[i]);
                let matches = (query.fts_tokens.len() == 0 || counts.0 > 0) && (
                query.username_tokens.len() == 0 || counts.1 > 0) && (query.domain_tokens.len()
                    == 0 || counts.2 > 0) && (query.tag_tokens.len() == 0 || counts.3 > 0);
                let krank = counts.0 + counts.1 + counts.2 + counts.3;
                proof {
                    assert(matches == key_matches(u, d, t, f, cur));
                    assert(krank == key_rank(u, d, t, f, cur));
                }
                if matches && krank == rank {
                    let item = clone_key(&self.keys[i]);
                    out.push(item);
                }
                proof {
                    lemma_matching_rank_snoc(prefix, cur, u, d, t, f, rank as int);
                    assert(prefix.push(cur) =~= self.spec_keys().take(i + 1 as int));
                    let part1 = keys_matching_rank(
                        self.spec_keys().take(i + 1 as int),
                        u,
                        d,
                        t,
                        f,
                        rank as int,
                    );
                    let part0 = keys_matching_rank(prefix, u, d, t, f, rank as int);
                    if key_matches(u, d, t, f, cur) && key_rank(u, d, t, f, cur) == rank {
                        assert(part1 == part0 + seq![cur]);
                        assert((base + part1)[base.len() as int + part0.len() as int] == cur);
                        assert forall|j: int| 0 <= j < out@.len() implies key_eq(
                            #[trigger] out@[j],
                            (base + part1)[j],
                        ) by {
                            if j < base.len() as int + part0.len() as int {
                                assert((base + part1)[j] == (base + part0)[j]);
                            }
                        }
                    } else {
                        assert(part1 == part0);
                    }
                }
                i = i + 1;
            }
            proof {
                assert(self.spec_keys().take(self.spec_keys().len() as int) =~= self.spec_keys());
                lemma_ranked_above_step(
                    self.spec_keys(),
                    u,
                    d,
                    t,
                    f,
                    total as int,
                    rank - 1 as int,
                );
            }
            rank = rank - 1;
        }
        Ok(out)
    }
}

} // verus!
