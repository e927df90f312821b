use vstd::prelude::*;
use vstd::string::{StrSliceExecFns, StringExecFns};
use crate::codec::{
    dec_seq, is_digit, num_at, parse_number, starts_with, u64_to_dec,
    lemma_starts_with_concat, lemma_starts_with_index,
};
use crate::profile::{KubeConfig, ProfileView};
use crate::registry::{entry_views, unique_names, AppState};
use crate::RegistryError;

verus! {

/// A string field in a snapshot: its length in canonical decimal, a colon,
/// then the characters themselves.
pub open spec fn enc_str(x: Seq<char>) -> Seq<char> {
    dec_seq(x.len()) + seq![':'] + x
}

/// A number in a snapshot: canonical decimal closed by a semicolon.
pub open spec fn enc_u64(n: nat) -> Seq<char> {
    dec_seq(n) + seq![';']
}

/// An optional number: `n` for nothing, or `s` followed by the number.
pub open spec fn enc_opt_u64(o: Option<u64>) -> Seq<char> {
    match o {
        None => seq!['n'],
        Some(t) => seq!['s'] + enc_u64(t as nat),
    }
}

/// An optional string: `n` for nothing, or `s` followed by the string field.
pub open spec fn enc_opt_str(o: Option<Seq<char>>) -> Seq<char> {
    match o {
        None => seq!['n'],
        Some(x) => seq!['s'] + enc_str(x),
    }
}

/// A profile: its four fields in a fixed order.
pub open spec fn enc_profile(p: ProfileView) -> Seq<char> {
    enc_str(p.cluster_url) + enc_str(p.default_namespace) + enc_str(p.auth) + enc_opt_u64(
        p.connect_timeout,
    )
}

/// One registry entry: the name, then the profile stored under it.
pub open spec fn enc_entry(e: (Seq<char>, ProfileView)) -> Seq<char> {
    enc_str(e.0) + enc_profile(e.1)
}

/// A run of entries, in order.
pub open spec fn enc_entries(es: Seq<(Seq<char>, ProfileView)>) -> Seq<char>
    decreases es.len(),
{
    if es.len() == 0 {
        Seq::<char>::empty()
    } else {
        enc_entry(es.first()) + enc_entries(es.drop_first())
    }
}

/// The complete snapshot of a registry: the selection, the entry count,
/// then every entry.
pub open spec fn snapshot_of(cur: Option<Seq<char>>, es: Seq<(Seq<char>, ProfileView)>) -> Seq<
    char,
> {
    enc_opt_str(cur) + enc_u64(es.len()) + enc_entries(es)
}

/// Every character count in a profile fits the length prefix.
pub open spec fn profile_bounded(p: ProfileView) -> bool {
    &&& p.cluster_url.len() <= u64::MAX
    &&& p.default_namespace.len() <= u64::MAX
    &&& p.auth.len() <= u64::MAX
}

/// Every character count in an entry run fits the length prefixes.
pub open spec fn entries_bounded(es: Seq<(Seq<char>, ProfileView)>) -> bool {
    &&& es.len() <= u64::MAX
    &&& forall|i: int|
        0 <= i < es.len() ==> (#[trigger] es[i]).0.len() <= u64::MAX && profile_bounded(es[i].1)
}

/// The view of an optional owned name.
pub open spec fn opt_view(o: Option<String>) -> Option<Seq<char>> {
    match o {
        Some(x) => Some(x@),
        None => None,
    }
}

fn append_str_field(out: &mut String, x: &str)
    ensures
        final(out)@ == old(out)@ + enc_str(x@),
        x@.len() <= u64::MAX,
{
    let l = x.unicode_len();
    let dec = u64_to_dec(l as u64);
    out.append(dec.as_str());
    out.append(":");
    out.append(x);
    proof {
        reveal_strlit(":");
        assert(":"@ =~= seq![':']);
        assert(old(out)@ + dec_seq(x@.len()) + ":"@ + x@ =~= old(out)@ + enc_str(x@));
    }
}

fn append_opt_u64(out: &mut String, o: Option<u64>)
    ensures
        final(out)@ == old(out)@ + enc_opt_u64(o),
{
    proof {
        reveal_strlit("n");
        reveal_strlit("s");
        reveal_strlit(";");
        assert("n"@ =~= seq!['n']);
        assert("s"@ =~= seq!['s']);
        assert(";"@ =~= seq![';']);
    }
    match o {
        None => {
            out.append("n");
            proof {
                assert(old(out)@ + "n"@ =~= old(out)@ + enc_opt_u64(o));
            }
        },
        Some(t) => {
            out.append("s");
            let dec = u64_to_dec(t);
            out.append(dec.as_str());
            out.append(";");
            proof {
                assert(old(out)@ + "s"@ + dec_seq(t as nat) + ";"@ =~= old(out)@ + enc_opt_u64(o));
            }
        },
    }
}

fn append_profile(out: &mut String, p: &KubeConfig)
    ensures
        final(out)@ == old(out)@ + enc_profile(p@),
        profile_bounded(p@),
{
    append_str_field(out, p.cluster_url.as_str());
    append_str_field(out, p.default_namespace.as_str());
    append_str_field(out, p.auth.as_str());
    append_opt_u64(out, p.connect_timeout);
    proof {
        assert(old(out)@ + enc_str(p@.cluster_url) + enc_str(p@.default_namespace) + enc_str(
            p@.auth,
        ) + enc_opt_u64(p@.connect_timeout) =~= old(out)@ + enc_profile(p@));
    }
}

fn append_entries(v: &Vec<(String, KubeConfig)>, i: usize, out: &mut String)
    requires
        i <= v@.len(),
    ensures
        final(out)@ == old(out)@ + enc_entries(entry_views(v@).skip(i as int)),
        entries_bounded(entry_views(v@).skip(i as int)),
    decreases v@.len() - i,
{
    let ghost tail = entry_views(v@).skip(i as int);
    if i == v.len() {
        proof {
            assert(tail =~= Seq::<(Seq<char>, ProfileView)>::empty());
            assert(old(out)@ + enc_entries(tail) =~= old(out)@);
        }
    } else {
        append_str_field(out, v[i].0.as_str());
        append_profile(out, &v[i].1);
        append_entries(v, i + 1, out);
        proof {
            assert(tail.first() == (v@[i as int].0@, v@[i as int].1@));
            assert(tail.drop_first() =~= entry_views(v@).skip(i + 1));
            assert(enc_entries(tail) == enc_entry(tail.first()) + enc_entries(tail.drop_first()));
            assert(out@ =~= old(out)@ + enc_entries(tail));
            assert forall|j: int| 0 <= j < tail.len() implies (#[trigger] tail[j]).0.len()
                <= u64::MAX && profile_bounded(tail[j].1) by {
                if j > 0 {
                    assert(entry_views(v@).skip(i + 1)[j - 1] == tail[j]);
                }
            }
        }
    }
}

/// A string field, as laid down by the encoder, stands at `pos`.
pub open spec fn str_at(input: Seq<char>, pos: int, x: Seq<char>) -> bool {
    &&& starts_with(input, pos, enc_str(x))
    &&& x.len() <= u64::MAX
}

/// An optional string stands at `pos`.
pub open spec fn opt_str_at(input: Seq<char>, pos: int, o: Option<Seq<char>>) -> bool {
    &&& starts_with(input, pos, enc_opt_str(o))
    &&& (o matches Some(x) ==> x.len() <= u64::MAX)
}

/// A profile stands at `pos`.
pub open spec fn profile_at(input: Seq<char>, pos: int, p: ProfileView) -> bool {
    &&& starts_with(input, pos, enc_profile(p))
    &&& profile_bounded(p)
}

/// An entry stands at `pos`.
pub open spec fn entry_at(input: Seq<char>, pos: int, e: (Seq<char>, ProfileView)) -> bool {
    &&& starts_with(input, pos, enc_entry(e))
    &&& e.0.len() <= u64::MAX
    &&& profile_bounded(e.1)
}

/// A run of entries stands at `pos`.
pub open spec fn entries_at(input: Seq<char>, pos: int, es: Seq<(Seq<char>, ProfileView)>) -> bool {
    &&& starts_with(input, pos, enc_entries(es))
    &&& entries_bounded(es)
}

/// `input` is exactly the snapshot of a registry whose entries are `es` and
/// whose selection is `cur`, with every length prefix in range and the
/// entry names pairwise distinct.
pub open spec fn snap_at(
    input: Seq<char>,
    cur: Option<Seq<char>>,
    es: Seq<(Seq<char>, ProfileView)>,
) -> bool {
    &&& input == snapshot_of(cur, es)
    &&& entries_bounded(es)
    &&& unique_names(es)
    &&& (cur matches Some(c) ==> c.len() <= u64::MAX)
}

proof fn lemma_str_at_parts(input: Seq<char>, pos: int, x: Seq<char>)
    requires
        str_at(input, pos, x),
    ensures
        num_at(input, pos, x.len() as u64),
        dec_seq((x.len() as u64) as nat) == dec_seq(x.len()),
        pos + enc_str(x).len() <= input.len(),
        pos + dec_seq(x.len()).len() < input.len(),
        input[pos + dec_seq(x.len()).len()] == ':',
        starts_with(input, pos + dec_seq(x.len()).len() + 1, x),
        enc_str(x).len() == dec_seq(x.len()).len() + 1 + x.len(),
{
    let d = dec_seq(x.len());
    let dc = d + seq![':'];
    assert(enc_str(x) == dc + x);
    lemma_starts_with_concat(input, pos, dc, x);
    lemma_starts_with_concat(input, pos, d, seq![':']);
    lemma_starts_with_index(input, pos + d.len(), seq![':'], 0);
    assert(input[pos + d.len()] == ':');
    assert(!is_digit(':'));
}

fn parse_str_field(s: &str, pos: usize) -> (r: Option<(String, usize)>)
    requires
        pos <= s@.len(),
    ensures
        r matches Some((v, p)) ==> {
            &&& pos < p <= s@.len()
            &&& s@.subrange(pos as int, p as int) == enc_str(v@)
            &&& v@.len() <= u64::MAX
        },
        forall|x: Seq<char>|
            str_at(s@, pos as int, x) ==> (r matches Some((v, p)) && v@ == x && p as int == pos
                + enc_str(x).len()),
{
    let len = s.unicode_len();
    let (n, p) = match parse_number(s, pos) {
        Some(t) => t,
        None => {
            proof {
                assert forall|x: Seq<char>| !str_at(s@, pos as int, x) by {
                    if str_at(s@, pos as int, x) {
                        lemma_str_at_parts(s@, pos as int, x);
                    }
                }
            }
            return None;
        },
    };
    if p == len {
        proof {
            assert forall|x: Seq<char>| !str_at(s@, pos as int, x) by {
                if str_at(s@, pos as int, x) {
                    lemma_str_at_parts(s@, pos as int, x);
                }
            }
        }
        return None;
    }
    let c = s.get_char(p);
    if c != ':' {
        proof {
            assert forall|x: Seq<char>| !str_at(s@, pos as int, x) by {
                if str_at(s@, pos as int, x) {
                    lemma_str_at_parts(s@, pos as int, x);
                }
            }
        }
        return None;
    }
    let start = p + 1;
    let rem = len - start;
    if n > rem as u64 {
        proof {
            assert forall|x: Seq<char>| !str_at(s@, pos as int, x) by {
                if str_at(s@, pos as int, x) {
                    lemma_str_at_parts(s@, pos as int, x);
                }
            }
        }
        return None;
    }
    let n_us = n as usize;
    let end = start + n_us;
    let sub = s.substring_char(start, end);
    let v = sub.to_owned();
    proof {
        assert(v@.len() == n as nat);
        assert forall|j: int|
            0 <= j < end - pos implies s@.subrange(pos as int, end as int)[j] == enc_str(v@)[j] by {
            let d = dec_seq(v@.len());
            if j < p - pos {
                assert(s@.subrange(pos as int, p as int)[j] == d[j]);
                assert(enc_str(v@)[j] == d[j]);
            } else if j == p - pos {
                assert(enc_str(v@)[j] == ':');
            } else {
                assert(enc_str(v@)[j] == v@[j - (p - pos) - 1]);
                assert(s@.subrange(start as int, end as int)[j - (p - pos) - 1] == v@[j - (p
                    - pos) - 1]);
            }
        }
        assert(s@.subrange(pos as int, end as int) =~= enc_str(v@));
        assert forall|x: Seq<char>|
            str_at(s@, pos as int, x) implies (v@ == x && end as int == pos + enc_str(
            x,
        ).len()) by {
            lemma_str_at_parts(s@, pos as int, x);
            assert(n == x.len() as u64);
            assert(p == pos + dec_seq(x.len()).len());
            assert(s@.subrange(start as int, start + x.len()) == x);
            assert(v@ =~= s@.subrange(start as int, end as int));
            assert(v@ =~= x);
        }
    }
    Some((v, end))
}

proof fn lemma_u64_at_parts(input: Seq<char>, pos: int, n: u64)
    requires
        starts_with(input, pos, enc_u64(n as nat)),
    ensures
        num_at(input, pos, n),
        pos + enc_u64(n as nat).len() <= input.len(),
        pos + dec_seq(n as nat).len() < input.len(),
        input[pos + dec_seq(n as nat).len()] == ';',
        enc_u64(n as nat).len() == dec_seq(n as nat).len() + 1,
{
    let d = dec_seq(n as nat);
    lemma_starts_with_concat(input, pos, d, seq![';']);
    lemma_starts_with_index(input, pos + d.len(), seq![';'], 0);
    assert(!is_digit(';'));
}

fn parse_u64_semi(s: &str, pos: usize) -> (r: Option<(u64, usize)>)
    requires
        pos <= s@.len(),
    ensures
        r matches Some((n, p)) ==> {
            &&& pos < p <= s@.len()
            &&& s@.subrange(pos as int, p as int) == enc_u64(n as nat)
        },
        forall|n: u64|
            starts_with(s@, pos as int, enc_u64(n as nat)) ==> (r matches Some((m, p)) && m == n
                && p as int == pos + enc_u64(n as nat).len()),
{
    let len = s.unicode_len();
    let (n, p) = match parse_number(s, pos) {
        Some(t) => t,
        None => {
            proof {
                assert forall|n: u64| !starts_with(s@, pos as int, enc_u64(n as nat)) by {
                    if starts_with(s@, pos as int, enc_u64(n as nat)) {
                        lemma_u64_at_parts(s@, pos as int, n);
                    }
                }
            }
            return None;
        },
    };
    if p == len {
        proof {
            assert forall|n: u64| !starts_with(s@, pos as int, enc_u64(n as nat)) by {
                if starts_with(s@, pos as int, enc_u64(n as nat)) {
                    lemma_u64_at_parts(s@, pos as int, n);
                }
            }
        }
        return None;
    }
    let c = s.get_char(p);
    if c != ';' {
        proof {
            assert forall|n: u64| !starts_with(s@, pos as int, enc_u64(n as nat)) by {
                if starts_with(s@, pos as int, enc_u64(n as nat)) {
                    lemma_u64_at_parts(s@, pos as int, n);
                }
            }
        }
        return None;
    }
    proof {
        assert forall|j: int|
            0 <= j < p + 1 - pos implies s@.subrange(pos as int, p + 1)[j] == enc_u64(n as nat)[j]
        by {
            if j < p - pos {
                assert(s@.subrange(pos as int, p as int)[j] == dec_seq(n as nat)[j]);
            }
        }
        assert(s@.subrange(pos as int, p + 1) =~= enc_u64(n as nat));
        assert forall|m: u64|
            starts_with(s@, pos as int, enc_u64(m as nat)) implies (n == m && p + 1 == pos
            + enc_u64(m as nat).len()) by {
            lemma_u64_at_parts(s@, pos as int, m);
        }
    }
    Some((n, p + 1))
}

fn parse_opt_u64(s: &str, pos: usize) -> (r: Option<(Option<u64>, usize)>)
    requires
        pos <= s@.len(),
    ensures
        r matches Some((o, p)) ==> {
            &&& pos < p <= s@.len()
            &&& s@.subrange(pos as int, p as int) == enc_opt_u64(o)
        },
        forall|o: Option<u64>|
            starts_with(s@, pos as int, enc_opt_u64(o)) ==> (r matches Some((m, p)) && m == o
                && p as int == pos + enc_opt_u64(o).len()),
{
    let len = s.unicode_len();
    if pos == len {
        return None;
    }
    let tag = s.get_char(pos);
    if tag == 'n' {
        proof {
            assert(s@.subrange(pos as int, pos + 1) =~= seq!['n']);
            assert forall|o: Option<u64>|
                starts_with(s@, pos as int, enc_opt_u64(o)) implies (o is None && pos + 1 == pos
                + enc_opt_u64(o).len()) by {
                lemma_starts_with_index(s@, pos as int, enc_opt_u64(o), 0);
            }
        }
        return Some((None, pos + 1));
    }
    if tag != 's' {
        proof {
            assert forall|o: Option<u64>| !starts_with(s@, pos as int, enc_opt_u64(o)) by {
                if starts_with(s@, pos as int, enc_opt_u64(o)) {
                    lemma_starts_with_index(s@, pos as int, enc_opt_u64(o), 0);
                }
            }
        }
        return None;
    }
    let (t, p) = match parse_u64_semi(s, pos + 1) {
        Some(t) => t,
        None => {
            proof {
                assert forall|o: Option<u64>| !starts_with(s@, pos as int, enc_opt_u64(o)) by {
                    if starts_with(s@, pos as int, enc_opt_u64(o)) {
                        lemma_starts_with_index(s@, pos as int, enc_opt_u64(o), 0);
                        match o {
                            Some(t0) => lemma_starts_with_concat(
                                s@,
                                pos as int,
                                seq!['s'],
                                enc_u64(t0 as nat),
                            ),
                            None => (),
                        }
                    }
                }
            }
            return None;
        },
    };
    proof {
        assert forall|j: int|
            0 <= j < p - pos implies s@.subrange(pos as int, p as int)[j] == enc_opt_u64(
            Some(t),
        )[j] by {
            if j > 0 {
                assert(s@.subrange(pos + 1, p as int)[j - 1] == enc_u64(t as nat)[j - 1]);
            }
        }
        assert(s@.subrange(pos as int, p as int) =~= enc_opt_u64(Some(t)));
        assert forall|o: Option<u64>|
            starts_with(s@, pos as int, enc_opt_u64(o)) implies (o == Some(t) && p as int == pos
            + enc_opt_u64(o).len()) by {
            lemma_starts_with_index(s@, pos as int, enc_opt_u64(o), 0);
            match o {
                Some(t0) => lemma_starts_with_concat(s@, pos as int, seq!['s'], enc_u64(t0 as nat)),
                None => (),
            }
        }
    }
    Some((Some(t), p))
}

fn parse_opt_str(s: &str, pos: usize) -> (r: Option<(Option<String>, usize)>)
    requires
        pos <= s@.len(),
    ensures
        r matches Some((o, p)) ==> {
            &&& pos < p <= s@.len()
            &&& s@.subrange(pos as int, p as int) == enc_opt_str(opt_view(o))
            &&& (opt_view(o) matches Some(x) ==> x.len() <= u64::MAX)
        },
        forall|o: Option<Seq<char>>|
            opt_str_at(s@, pos as int, o) ==> (r matches Some((m, p)) && opt_view(m) == o
                && p as int == pos + enc_opt_str(o).len()),
{
    let len = s.unicode_len();
    if pos == len {
        return None;
    }
    let tag = s.get_char(pos);
    if tag == 'n' {
        proof {
            assert(s@.subrange(pos as int, pos + 1) =~= seq!['n']);
            assert forall|o: Option<Seq<char>>|
                opt_str_at(s@, pos as int, o) implies (o is None && pos + 1 == pos + enc_opt_str(
                o,
            ).len()) by {
                lemma_starts_with_index(s@, pos as int, enc_opt_str(o), 0);
            }
        }
        return Some((None, pos + 1));
    }
    if tag != 's' {
        proof {
            assert forall|o: Option<Seq<char>>| !opt_str_at(s@, pos as int, o) by {
                if opt_str_at(s@, pos as int, o) {
                    lemma_starts_with_index(s@, pos as int, enc_opt_str(o), 0);
                }
            }
        }
        return None;
    }
    let (x, p) = match parse_str_field(s, pos + 1) {
        Some(t) => t,
        None => {
            proof {
                assert forall|o: Option<Seq<char>>| !opt_str_at(s@, pos as int, o) by {
                    if opt_str_at(s@, pos as int, o) {
                        lemma_starts_with_index(s@, pos as int, enc_opt_str(o), 0);
                        match o {
                            Some(x0) => {
                                lemma_starts_with_concat(s@, pos as int, seq!['s'], enc_str(x0));
                                assert(str_at(s@, pos as int + 1, x0));
                            },
                            None => (),
                        }
                    }
                }
            }
            return None;
        },
    };
    proof {
        assert forall|j: int|
            0 <= j < p - pos implies s@.subrange(pos as int, p as int)[j] == enc_opt_str(
            Some(x@),
        )[j] by {
            if j > 0 {
                assert(s@.subrange(pos + 1, p as int)[j - 1] == enc_str(x@)[j - 1]);
            }
        }
        assert(s@.subrange(pos as int, p as int) =~= enc_opt_str(Some(x@)));
        assert forall|o: Option<Seq<char>>|
            opt_str_at(s@, pos as int, o) implies (opt_view(Some(x)) == o && p as int == pos
            + enc_opt_str(o).len()) by {
            lemma_starts_with_index(s@, pos as int, enc_opt_str(o), 0);
            match o {
                Some(x0) => {
                    lemma_starts_with_concat(s@, pos as int, seq!['s'], enc_str(x0));
                    assert(str_at(s@, pos as int + 1, x0));
                },
                None => (),
            }
        }
    }
    Some((Some(x), p))
}

proof fn lemma_profile_at_parts(input: Seq<char>, pos: int, p: ProfileView)
    requires
        profile_at(input, pos, p),
    ensures
        str_at(input, pos, p.cluster_url),
        str_at(input, pos + enc_str(p.cluster_url).len(), p.default_namespace),
        str_at(
            input,
            pos + enc_str(p.cluster_url).len() + enc_str(p.default_namespace).len(),
            p.auth,
        ),
        starts_with(
            input,
            pos + enc_str(p.cluster_url).len() + enc_str(p.default_namespace).len() + enc_str(
                p.auth,
            ).len(),
            enc_opt_u64(p.connect_timeout),
        ),
        enc_profile(p).len() == enc_str(p.cluster_url).len() + enc_str(p.default_namespace).len()
            + enc_str(p.auth).len() + enc_opt_u64(p.connect_timeout).len(),
{
    let a = enc_str(p.cluster_url);
    let b = enc_str(p.default_namespace);
    let c = enc_str(p.auth);
    let d = enc_opt_u64(p.connect_timeout);
    assert(enc_profile(p) == ((a + b) + c) + d);
    lemma_starts_with_concat(input, pos, (a + b) + c, d);
    lemma_starts_with_concat(input, pos, a + b, c);
    lemma_starts_with_concat(input, pos, a, b);
}

fn parse_profile(s: &str, pos: usize) -> (r: Option<(KubeConfig, usize)>)
    requires
        pos <= s@.len(),
    ensures
        r matches Some((kc, p)) ==> {
            &&& pos < p <= s@.len()
            &&& s@.subrange(pos as int, p as int) == enc_profile(kc@)
            &&& profile_bounded(kc@)
        },
        forall|pv: ProfileView|
            profile_at(s@, pos as int, pv) ==> (r matches Some((kc, p)) && kc@ == pv
                && p as int == pos + enc_profile(pv).len()),
{
    let (url, p1) = match parse_str_field(s, pos) {
        Some(t) => t,
        None => {
            proof {
                assert forall|pv: ProfileView| !profile_at(s@, pos as int, pv) by {
                    if profile_at(s@, pos as int, pv) {
                        lemma_profile_at_parts(s@, pos as int, pv);
                    }
                }
            }
            return None;
        },
    };
    let (ns, p2) = match parse_str_field(s, p1) {
        Some(t) => t,
        None => {
            proof {
                assert forall|pv: ProfileView| !profile_at(s@, pos as int, pv) by {
                    if profile_at(s@, pos as int, pv) {
                        lemma_profile_at_parts(s@, pos as int, pv);
                    }
                }
            }
            return None;
        },
    };
    let (auth, p3) = match parse_str_field(s, p2) {
        Some(t) => t,
        None => {
            proof {
                assert forall|pv: ProfileView| !profile_at(s@, pos as int, pv) by {
                    if profile_at(s@, pos as int, pv) {
                        lemma_profile_at_parts(s@, pos as int, pv);
                    }
                }
            }
            return None;
        },
    };
    let (t, p4) = match parse_opt_u64(s, p3) {
        Some(t) => t,
        None => {
            proof {
                assert forall|pv: ProfileView| !profile_at(s@, pos as int, pv) by {
                    if profile_at(s@, pos as int, pv) {
                        lemma_profile_at_parts(s@, pos as int, pv);
                    }
                }
            }
            return None;
        },
    };
    let kc = KubeConfig::new(url, ns, auth, t);
    proof {
        assert forall|j: int|
            0 <= j < p4 - pos implies s@.subrange(pos as int, p4 as int)[j] == enc_profile(
            kc@,
        )[j] by {
            let a = enc_str(kc@.cluster_url);
            let b = enc_str(kc@.default_namespace);
            let c = enc_str(kc@.auth);
            let d = enc_opt_u64(kc@.connect_timeout);
            if j < p1 - pos {
                assert(s@.subrange(pos as int, p1 as int)[j] == a[j]);
            } else if j < p2 - pos {
                assert(s@.subrange(p1 as int, p2 as int)[j - (p1 - pos)] == b[j - (p1 - pos)]);
            } else if j < p3 - pos {
                assert(s@.subrange(p2 as int, p3 as int)[j - (p2 - pos)] == c[j - (p2 - pos)]);
            } else {
                assert(s@.subrange(p3 as int, p4 as int)[j - (p3 - pos)] == d[j - (p3 - pos)]);
            }
        }
        assert(s@.subrange(pos as int, p4 as int) =~= enc_profile(kc@));
        assert forall|pv: ProfileView|
            profile_at(s@, pos as int, pv) implies (kc@ == pv && p4 as int == pos + enc_profile(
            pv,
        ).len()) by {
            lemma_profile_at_parts(s@, pos as int, pv);
            assert(url@ == pv.cluster_url);
            assert(ns@ == pv.default_namespace);
            assert(auth@ == pv.auth);
            assert(t == pv.connect_timeout);
            assert(kc@ =~= pv);
        }
    }
    Some((kc, p4))
}

proof fn lemma_entry_at_parts(input: Seq<char>, pos: int, e: (Seq<char>, ProfileView))
    requires
        entry_at(input, pos, e),
    ensures
        str_at(input, pos, e.0),
        profile_at(input, pos + enc_str(e.0).len(), e.1),
        enc_entry(e).len() == enc_str(e.0).len() + enc_profile(e.1).len(),
{
    lemma_starts_with_concat(input, pos, enc_str(e.0), enc_profile(e.1));
}

fn parse_entry(s: &str, pos: usize) -> (r: Option<((String, KubeConfig), usize)>)
    requires
        pos <= s@.len(),
    ensures
        r matches Some((e, p)) ==> {
            &&& pos < p <= s@.len()
            &&& s@.subrange(pos as int, p as int) == enc_entry((e.0@, e.1@))
            &&& e.0@.len() <= u64::MAX
            &&& profile_bounded(e.1@)
        },
        forall|ev: (Seq<char>, ProfileView)|
            entry_at(s@, pos as int, ev) ==> (r matches Some((e, p)) && e.0@ == ev.0 && e.1@
                == ev.1 && p as int == pos + enc_entry(ev).len()),
{
    let (name, p1) = match parse_str_field(s, pos) {
        Some(t) => t,
        None => {
            proof {
                assert forall|ev: (Seq<char>, ProfileView)| !entry_at(s@, pos as int, ev) by {
                    if entry_at(s@, pos as int, ev) {
                        lemma_entry_at_parts(s@, pos as int, ev);
                    }
                }
            }
            return None;
        },
    };
    let (kc, p2) = match parse_profile(s, p1) {
        Some(t) => t,
        None => {
            proof {
                assert forall|ev: (Seq<char>, ProfileView)| !entry_at(s@, pos as int, ev) by {
                    if entry_at(s@, pos as int, ev) {
                        lemma_entry_at_parts(s@, pos as int, ev);
                    }
                }
            }
            return None;
        },
    };
    proof {
        assert forall|j: int|
            0 <= j < p2 - pos implies s@.subrange(pos as int, p2 as int)[j] == enc_entry(
            (name@, kc@),
        )[j] by {
            if j < p1 - pos {
                assert(s@.subrange(pos as int, p1 as int)[j] == enc_str(name@)[j]);
            } else {
                assert(s@.subrange(p1 as int, p2 as int)[j - (p1 - pos)] == enc_profile(kc@)[j - (
                p1 - pos)]);
            }
        }
        assert(s@.subrange(pos as int, p2 as int) =~= enc_entry((name@, kc@)));
        assert forall|ev: (Seq<char>, ProfileView)|
            entry_at(s@, pos as int, ev) implies (name@ == ev.0 && kc@ == ev.1 && p2 as int == pos
            + enc_entry(ev).len()) by {
            lemma_entry_at_parts(s@, pos as int, ev);
        }
    }
    Some(((name, kc), p2))
}

fn parse_entries(s: &str, pos: usize, count: u64) -> (r: Option<(Vec<(String, KubeConfig)>, usize)>)
    requires
        pos <= s@.len(),
    ensures
        r matches Some((v, p)) ==> {
            &&& pos <= p <= s@.len()
            &&& v@.len() == count
            &&& s@.subrange(pos as int, p as int) == enc_entries(entry_views(v@))
            &&& entries_bounded(entry_views(v@))
        },
        forall|es: Seq<(Seq<char>, ProfileView)>|
            es.len() == count && entries_at(s@, pos as int, es) ==> (r matches Some((v, p))
                && entry_views(v@) == es && p as int == pos + enc_entries(es).len()),
    decreases count,
{
    if count == 0 {
        let v: Vec<(String, KubeConfig)> = Vec::new();
        proof {
            assert(entry_views(v@) =~= Seq::<(Seq<char>, ProfileView)>::empty());
            assert(s@.subrange(pos as int, pos as int) =~= enc_entries(entry_views(v@)));
            assert forall|es: Seq<(Seq<char>, ProfileView)>|
                es.len() == count && entries_at(s@, pos as int, es) implies (entry_views(v@) == es
                && pos as int == pos + enc_entries(es).len()) by {
                assert(es =~= Seq::<(Seq<char>, ProfileView)>::empty());
            }
        }
        return Some((v, pos));
    }
    let (e, p1) = match parse_entry(s, pos) {
        Some(t) => t,
        None => {
            proof {
                assert forall|es: Seq<(Seq<char>, ProfileView)>|
                    !(es.len() == count && entries_at(s@, pos as int, es)) by {
                    if es.len() == count && entries_at(s@, pos as int, es) {
                        lemma_starts_with_concat(
                            s@,
                            pos as int,
                            enc_entry(es.first()),
                            enc_entries(es.drop_first()),
                        );
                        assert(entry_at(s@, pos as int, es.first()));
                    }
                }
            }
            return None;
        },
    };
    let (mut v, p2) = match parse_entries(s, p1, count - 1) {
        Some(t) => t,
        None => {
            proof {
                assert forall|es: Seq<(Seq<char>, ProfileView)>|
                    !(es.len() == count && entries_at(s@, pos as int, es)) by {
                    if es.len() == count && entries_at(s@, pos as int, es) {
                        lemma_starts_with_concat(
                            s@,
                            pos as int,
                            enc_entry(es.first()),
                            enc_entries(es.drop_first()),
                        );
                        assert(entry_at(s@, pos as int, es.first()));
                        assert(p1 as int == pos + enc_entry(es.first()).len());
                        assert forall|i: int|
                            0 <= i < es.drop_first().len() implies (#[trigger] es.drop_first()[
                            i]).0.len() <= u64::MAX && profile_bounded(es.drop_first()[i].1) by {
                            assert(es[i + 1].0.len() <= u64::MAX && profile_bounded(es[i + 1].1));
                        }
                        assert(entries_at(s@, p1 as int, es.drop_first()));
                        assert(es.drop_first().len() == count - 1);
                    }
                }
            }
            return None;
        },
    };
    let ghost v0 = v@;
    v.insert(0, e);
    proof {
        assert(v@ == v0.insert(0, e));
        v0.insert_ensures(0, e);
        assert forall|j: int|
            0 <= j < entry_views(v@).len() implies entry_views(v@)[j] == (seq![(e.0@, e.1@)]
            + entry_views(v0))[j] by {
            if j == 0 {
                assert(v@[0] == e);
            } else {
                assert(v@[j] == v0[j - 1]);
            }
        }
        assert(entry_views(v@) =~= seq![(e.0@, e.1@)] + entry_views(v0));
        let ev = (e.0@, e.1@);
        let full = seq![ev] + entry_views(v0);
        assert(full.first() == ev);
        assert(full.drop_first() =~= entry_views(v0));
        assert(enc_entries(full) == enc_entry(ev) + enc_entries(entry_views(v0)));
        assert forall|j: int|
            0 <= j < p2 - pos implies s@.subrange(pos as int, p2 as int)[j] == enc_entries(
            full,
        )[j] by {
            if j < p1 - pos {
                assert(s@.subrange(pos as int, p1 as int)[j] == enc_entry(ev)[j]);
            } else {
                assert(s@.subrange(p1 as int, p2 as int)[j - (p1 - pos)] == enc_entries(
                    entry_views(v0),
                )[j - (p1 - pos)]);
            }
        }
        assert(s@.subrange(pos as int, p2 as int) =~= enc_entries(full));
        assert forall|i: int|
            0 <= i < full.len() implies (#[trigger] full[i]).0.len() <= u64::MAX
            && profile_bounded(full[i].1) by {
            if i > 0 {
                assert(entry_views(v0)[i - 1] == full[i]);
            }
        }
        assert forall|es: Seq<(Seq<char>, ProfileView)>|
            es.len() == count && entries_at(s@, pos as int, es) implies (entry_views(v@) == es
            && p2 as int == pos + enc_entries(es).len()) by {
            lemma_starts_with_concat(
                s@,
                pos as int,
                enc_entry(es.first()),
                enc_entries(es.drop_first()),
            );
            assert(entry_at(s@, pos as int, es.first()));
            assert(e.0@ == es.first().0 && e.1@ == es.first().1);
            assert(p1 as int == pos + enc_entry(es.first()).len());
            assert forall|i: int|
                0 <= i < es.drop_first().len() implies (#[trigger] es.drop_first()[i]).0.len()
                <= u64::MAX && profile_bounded(es.drop_first()[i].1) by {
                assert(es[i + 1].0.len() <= u64::MAX && profile_bounded(es[i + 1].1));
            }
            assert(entries_at(s@, p1 as int, es.drop_first()));
            assert(es.drop_first().len() == count - 1);
            assert(entry_views(v0) == es.drop_first());
            assert(entry_views(v@) =~= es);
        }
    }
    Some((v, p2))
}

fn has_unique_names(v: &Vec<(String, KubeConfig)>) -> (b: bool)
    ensures
        b == unique_names(entry_views(v@)),
{
    let mut i: usize = 0;
    while i < v.len()
        invariant
            i <= v@.len(),
            forall|a: int, b0: int|
                0 <= a < b0 < i ==> (#[trigger] entry_views(v@)[a]).0 != (#[trigger] entry_views(
                    v@,
                )[b0]).0,
        decreases v@.len() - i,
    {
        let mut j: usize = 0;
        while j < i
            invariant
                j <= i < v@.len(),
                forall|a: int, b0: int|
                    0 <= a < b0 < i ==> (#[trigger] entry_views(v@)[a]).0 != (
                    #[trigger] entry_views(v@)[b0]).0,
                forall|jj: int|
                    0 <= jj < j ==> (#[trigger] entry_views(v@)[jj]).0 != entry_views(v@)[
                    i as int].0,
            decreases i - j,
        {
            if v[j].0 == v[i].0 {
                proof {
                    assert(entry_views(v@)[j as int].0 == entry_views(v@)[i as int].0);
                }
                return false;
            }
            j = j + 1;
        }
        i = i + 1;
    }
    true
}

impl AppState {
    /// Reconstructs a registry from a snapshot string. Succeeds exactly on
    /// the strings that are the snapshot of some registry whose entry names
    /// are pairwise distinct, and then restores that registry's profiles and
    /// selection; every other string is refused as `MalformedSnapshot`. The
    /// restored selection is taken as the snapshot wrote it, without being
    /// checked against the restored profiles.
    pub fn from_snapshot(s: &str) -> (r: Result<AppState, RegistryError>)
        ensures
            r matches Ok(st) ==> st.wf() && s@ == snapshot_of(st@.current, st.entries()),
            r matches Err(e) ==> e == RegistryError::MalformedSnapshot,
            forall|cur: Option<Seq<char>>, es: Seq<(Seq<char>, ProfileView)>|
                snap_at(s@, cur, es) ==> (r matches Ok(st) && st@.current == cur && st.entries()
                    == es),
    {
        let len = s.unicode_len();
        let (cur, p0) = match parse_opt_str(s, 0) {
            Some(t) => t,
            None => {
                proof {
                    assert forall|cur: Option<Seq<char>>, es: Seq<(Seq<char>, ProfileView)>|
                        !snap_at(s@, cur, es) by {
                        if snap_at(s@, cur, es) {
                            lemma_snap_at_parts(s@, cur, es);
                        }
                    }
                }
                return Err(RegistryError::MalformedSnapshot);
            },
        };
        let (count, p1) = match parse_u64_semi(s, p0) {
            Some(t) => t,
            None => {
                proof {
                    assert forall|cur0: Option<Seq<char>>, es: Seq<(Seq<char>, ProfileView)>|
                        !snap_at(s@, cur0, es) by {
                        if snap_at(s@, cur0, es) {
                            lemma_snap_at_parts(s@, cur0, es);
                        }
                    }
                }
                return Err(RegistryError::MalformedSnapshot);
            },
        };
        let (v, p2) = match parse_entries(s, p1, count) {
            Some(t) => t,
            None => {
                proof {
                    assert forall|cur0: Option<Seq<char>>, es: Seq<(Seq<char>, ProfileView)>|
                        !snap_at(s@, cur0, es) by {
                        if snap_at(s@, cur0, es) {
                            lemma_snap_at_parts(s@, cur0, es);
                            assert(p0 as int == enc_opt_str(cur0).len());
                            assert(count == es.len() as u64);
                            assert(p1 as int == p0 + enc_u64(es.len()).len());
                        }
                    }
                }
                return Err(RegistryError::MalformedSnapshot);
            },
        };
        if p2 != len {
            proof {
                assert forall|cur0: Option<Seq<char>>, es: Seq<(Seq<char>, ProfileView)>|
                    !snap_at(s@, cur0, es) by {
                    if snap_at(s@, cur0, es) {
                        lemma_snap_at_parts(s@, cur0, es);
                        assert(p0 as int == enc_opt_str(cur0).len());
                        assert(count == es.len() as u64);
                        assert(p1 as int == p0 + enc_u64(es.len()).len());
                        assert(entry_views(v@) == es);
                        assert(p2 as int == p1 + enc_entries(es).len());
                    }
                }
            }
            return Err(RegistryError::MalformedSnapshot);
        }
        if !has_unique_names(&v) {
            proof {
                assert forall|cur0: Option<Seq<char>>, es: Seq<(Seq<char>, ProfileView)>|
                    !snap_at(s@, cur0, es) by {
                    if snap_at(s@, cur0, es) {
                        lemma_snap_at_parts(s@, cur0, es);
                        assert(entry_views(v@) == es);
                    }
                }
            }
            return Err(RegistryError::MalformedSnapshot);
        }
        let st = AppState { configs: v, current_config: cur };
        proof {
            assert forall|j: int|
                0 <= j < len implies s@[j] == (enc_opt_str(opt_view(st.current_config)) + enc_u64(
                st.entries().len(),
            ) + enc_entries(st.entries()))[j] by {
                assert(st.entries().len() == count as nat);
                if j < p0 as int {
                    assert(s@.subrange(0, p0 as int)[j] == enc_opt_str(opt_view(cur))[j]);
                } else if j < p1 as int {
                    assert(s@.subrange(p0 as int, p1 as int)[j - p0] == enc_u64(count as nat)[j
                        - p0]);
                } else {
                    assert(s@.subrange(p1 as int, p2 as int)[j - p1] == enc_entries(
                        entry_views(v@),
                    )[j - p1]);
                }
            }
            assert(st.entries().len() == count as nat);
            assert(s@ =~= snapshot_of(st@.current, st.entries()));
            assert forall|cur0: Option<Seq<char>>, es: Seq<(Seq<char>, ProfileView)>|
                snap_at(s@, cur0, es) implies (st@.current == cur0 && st.entries() == es) by {
                lemma_snap_at_parts(s@, cur0, es);
            }
        }
        Ok(st)
    }
}

impl AppState {
    /// Encoding a well-formed registry and decoding the result restores a
    /// registry with the same profiles under the same names and the same
    /// selection: a snapshot loses nothing.
    pub fn snapshot_restores(&self) -> (r: AppState)
        requires
            self.wf(),
        ensures
            r.wf(),
            r@.current == self@.current,
            r.entries() == self.entries(),
            r@.profiles == self@.profiles,
    {
        let text = match self.to_snapshot() {
            Ok(t) => t,
            Err(_) => vstd::pervasive::unreached(),
        };
        proof {
            assert(snap_at(text@, self@.current, self.entries()));
        }
        match AppState::from_snapshot(text.as_str()) {
            Ok(st) => st,
            Err(_) => vstd::pervasive::unreached(),
        }
    }
}

proof fn lemma_snap_at_parts(
    input: Seq<char>,
    cur: Option<Seq<char>>,
    es: Seq<(Seq<char>, ProfileView)>,
)
    requires
        snap_at(input, cur, es),
    ensures
        opt_str_at(input, 0, cur),
        starts_with(input, enc_opt_str(cur).len() as int, enc_u64(es.len())),
        entries_at(input, enc_opt_str(cur).len() + enc_u64(es.len()).len() as int, es),
        enc_u64(es.len()) == enc_u64((es.len() as u64) as nat),
        input.len() == enc_opt_str(cur).len() + enc_u64(es.len()).len() + enc_entries(es).len(),
{
    let a = enc_opt_str(cur);
    let b = enc_u64(es.len());
    let c = enc_entries(es);
    assert(input == (a + b) + c);
    assert(input.subrange(0, input.len() as int) =~= input);
    assert(starts_with(input, 0, (a + b) + c));
    lemma_starts_with_concat(input, 0, a + b, c);
    lemma_starts_with_concat(input, 0, a, b);
}

impl AppState {
    /// Produces the complete textual snapshot of the registry: the current
    /// selection and every stored profile. Never fails.
    pub fn to_snapshot(&self) -> (r: Result<String, RegistryError>)
        ensures
            r matches Ok(t) && t@ == snapshot_of(self@.current, self.entries()),
            entries_bounded(self.entries()),
            self@.current matches Some(c) ==> c.len() <= u64::MAX,
    {
        proof {
            reveal_strlit("n");
            reveal_strlit("s");
            reveal_strlit(";");
            assert("n"@ =~= seq!['n']);
            assert("s"@ =~= seq!['s']);
            assert(";"@ =~= seq![';']);
        }
        let mut out = String::new();
        match &self.current_config {
            None => {
                out.append("n");
                proof {
                    assert(out@ =~= enc_opt_str(self@.current));
                }
            },
            Some(cur) => {
                out.append("s");
                append_str_field(&mut out, cur.as_str());
                proof {
                    assert(out@ =~= enc_opt_str(self@.current));
                }
            },
        }
        let ghost head = out@;
        let count = self.configs.len();
        let dec = u64_to_dec(count as u64);
        out.append(dec.as_str());
        out.append(";");
        proof {
            assert(self.entries().len() == count as nat);
            assert(out@ =~= head + enc_u64(self.entries().len()));
        }
        append_entries(&self.configs, 0, &mut out);
        proof {
            assert(entry_views(self.configs@).skip(0) =~= self.entries());
            assert(out@ =~= snapshot_of(self@.current, self.entries()));
        }
        Ok(out)
    }
}

} // verus!
