use vstd::prelude::*;
use vstd::string::StrSliceExecFns;
use vstd::string::StringExecFns;

use crate::numfmt::{
    all_dec, all_hex, append_dec, append_hex, dec_seq, dec_val, hex_seq, hex_val, parse_dec_u32,
    parse_hex_u128,
};
use crate::sample::SourceId;

verus! {

/// `_sn=<start>..<end>`, each bound rendered in decimal when present.
pub open spec fn sn_range_seq(start: Option<u32>, end: Option<u32>) -> Seq<char> {
    seq!['_', 's', 'n', '='] + (if start is Some {
        dec_seq(start->Some_0 as nat)
    } else {
        Seq::empty()
    }) + seq!['.', '.'] + (if end is Some {
        dec_seq(end->Some_0 as nat)
    } else {
        Seq::empty()
    })
}

/// Render the sequence-number range selector parameter.
pub fn seq_num_range(start: Option<u32>, end: Option<u32>) -> (r: String)
    ensures
        r@ == sn_range_seq(start, end),
{
    proof {
        reveal_strlit("_sn=");
        reveal_strlit("..");
    }
    let mut r = String::new();
    r.append("_sn=");
    assert(r@ =~= seq!['_', 's', 'n', '=']);
    if let Some(v) = start {
        append_dec(&mut r, v as u64);
    }
    r.append("..");
    if let Some(v) = end {
        append_dec(&mut r, v as u64);
    }
    assert(r@ =~= sn_range_seq(start, end));
    r
}

/// `_max=<n>` and `_time=[now(-<age>s)..]`, separated by `;`, each present
/// exactly when configured.
pub open spec fn history_params_seq(max_samples: Option<u64>, max_age_secs: Option<u64>) -> Seq<
    char,
> {
    let maxp = if max_samples is Some {
        seq!['_', 'm', 'a', 'x', '='] + dec_seq(max_samples->Some_0 as nat)
    } else {
        Seq::<char>::empty()
    };
    let agep = if max_age_secs is Some {
        seq!['_', 't', 'i', 'm', 'e', '=', '[', 'n', 'o', 'w', '(', '-'] + dec_seq(
            max_age_secs->Some_0 as nat,
        ) + seq!['s', ')', '.', '.', ']']
    } else {
        Seq::<char>::empty()
    };
    if max_samples is Some && max_age_secs is Some {
        maxp + seq![';'] + agep
    } else {
        maxp + agep
    }
}

/// Render the selector parameters of a history query.
pub fn history_params(max_samples: Option<u64>, max_age_secs: Option<u64>) -> (r: String)
    ensures
        r@ == history_params_seq(max_samples, max_age_secs),
{
    proof {
        reveal_strlit("_max=");
        reveal_strlit(";");
        reveal_strlit("_time=[now(-");
        reveal_strlit("s)..]");
    }
    let mut r = String::new();
    if let Some(m) = max_samples {
        r.append("_max=");
        assert(r@ =~= seq!['_', 'm', 'a', 'x', '=']);
        append_dec(&mut r, m);
        if max_age_secs.is_some() {
            r.append(";");
        }
    }
    if let Some(a) = max_age_secs {
        r.append("_time=[now(-");
        append_dec(&mut r, a);
        r.append("s)..]");
    }
    assert(r@ =~= history_params_seq(max_samples, max_age_secs));
    r
}

/// `@adv/**/@/<sub>`: the key expression of the initial history query.
pub open spec fn history_ke_seq(sub: Seq<char>) -> Seq<char> {
    seq!['@', 'a', 'd', 'v', '/', '*', '*', '/', '@', '/'] + sub
}

pub fn history_query_ke(sub: &str) -> (r: String)
    ensures
        r@ == history_ke_seq(sub@),
{
    proof {
        reveal_strlit("@adv/**/@/");
    }
    let mut r = String::new();
    r.append("@adv/**/@/");
    assert(r@ =~= seq!['@', 'a', 'd', 'v', '/', '*', '*', '/', '@', '/']);
    r.append(sub);
    r
}

/// `@adv/*/<zid>/<eid>/**/@/<sub>`: the key expression of a sequence-range
/// query against one source's cache.
pub open spec fn range_ke_seq(source: SourceId, sub: Seq<char>) -> Seq<char> {
    seq!['@', 'a', 'd', 'v', '/', '*', '/'] + hex_seq(source.zid as nat) + seq!['/'] + dec_seq(
        source.eid as nat,
    ) + seq!['/', '*', '*', '/', '@', '/'] + sub
}

pub fn range_query_ke(source: SourceId, sub: &str) -> (r: String)
    ensures
        r@ == range_ke_seq(source, sub@),
{
    proof {
        reveal_strlit("@adv/*/");
        reveal_strlit("/");
        reveal_strlit("/**/@/");
    }
    let mut r = String::new();
    r.append("@adv/*/");
    assert(r@ =~= seq!['@', 'a', 'd', 'v', '/', '*', '/']);
    append_hex(&mut r, source.zid);
    r.append("/");
    append_dec(&mut r, source.eid as u64);
    r.append("/**/@/");
    r.append(sub);
    assert(r@ =~= range_ke_seq(source, sub@));
    r
}

/// `@adv/pub/**/@/<sub>`: the key expression the liveliness subscriber
/// watches for publisher announcements.
pub open spec fn liveliness_sub_ke_seq(sub: Seq<char>) -> Seq<char> {
    seq!['@', 'a', 'd', 'v', '/', 'p', 'u', 'b', '/', '*', '*', '/', '@', '/'] + sub
}

pub fn liveliness_sub_ke(sub: &str) -> (r: String)
    ensures
        r@ == liveliness_sub_ke_seq(sub@),
{
    proof {
        reveal_strlit("@adv/pub/**/@/");
    }
    let mut r = String::new();
    r.append("@adv/pub/**/@/");
    assert(r@ =~= seq!['@', 'a', 'd', 'v', '/', 'p', 'u', 'b', '/', '*', '*', '/', '@', '/']);
    r.append(sub);
    r
}

/// `@adv/sub/<zid>/<eid>/<meta-or-_>/@/<sub>`: the subscriber's own
/// liveliness token. The `_` chunk stands in when no metadata is supplied.
pub open spec fn token_ke_seq(source: SourceId, meta: Option<Seq<char>>, sub: Seq<char>) -> Seq<
    char,
> {
    seq!['@', 'a', 'd', 'v', '/', 's', 'u', 'b', '/'] + hex_seq(source.zid as nat) + seq!['/']
        + dec_seq(source.eid as nat) + seq!['/'] + (if meta is Some {
        meta->Some_0
    } else {
        seq!['_']
    }) + seq!['/', '@', '/'] + sub
}

pub fn token_ke(source: SourceId, meta: Option<&String>, sub: &str) -> (r: String)
    ensures
        r@ == token_ke_seq(
            source,
            match meta {
                Some(m) => Some(m@),
                None => None,
            },
            sub@,
        ),
{
    proof {
        reveal_strlit("@adv/sub/");
        reveal_strlit("/");
        reveal_strlit("_");
        reveal_strlit("/@/");
    }
    let mut r = String::new();
    r.append("@adv/sub/");
    assert(r@ =~= seq!['@', 'a', 'd', 'v', '/', 's', 'u', 'b', '/']);
    append_hex(&mut r, source.zid);
    r.append("/");
    append_dec(&mut r, source.eid as u64);
    r.append("/");
    match meta {
        Some(m) => r.append(m.as_str()),
        None => r.append("_"),
    }
    r.append("/@/");
    r.append(sub);
    assert(r@ =~= token_ke_seq(
        source,
        match meta {
            Some(m) => Some(m@),
            None => None,
        },
        sub@,
    ));
    r
}

/// The `/`-separated chunks of a key expression, split on every slash; an
/// empty string has one empty chunk.
pub open spec fn split_slash(s: Seq<char>) -> Seq<Seq<char>>
    decreases s.len(),
{
    if s.len() == 0 {
        seq![Seq::empty()]
    } else if s.last() == '/' {
        split_slash(s.drop_last()) + seq![Seq::empty()]
    } else {
        let r = split_slash(s.drop_last());
        r.update(r.len() - 1, r.last() + seq![s.last()])
    }
}

pub proof fn lemma_split_slash_len(s: Seq<char>)
    ensures
        split_slash(s).len() >= 1,
    decreases s.len(),
{
    if s.len() > 0 {
        lemma_split_slash_len(s.drop_last());
    }
}

/// The views of a vector of strings.
pub open spec fn str_views(v: Seq<String>) -> Seq<Seq<char>> {
    v.map_values(|x: String| x@)
}

/// Split a key expression on `/`.
pub fn split_slashes(s: &str) -> (r: Vec<String>)
    ensures
        str_views(r@) == split_slash(s@),
{
    let n = s.unicode_len();
    let mut out: Vec<String> = Vec::new();
    let mut start: usize = 0;
    let mut i: usize = 0;
    while i < n
        invariant
            0 <= start <= i <= n,
            n == s@.len(),
            split_slash(s@.take(i as int)) =~~= str_views(out@) + seq![
                s@.subrange(start as int, i as int),
            ],
        decreases n - i,
    {
        let c = s.get_char(i);
        proof {
            assert(s@.take(i as int + 1).drop_last() =~= s@.take(i as int));
            lemma_split_slash_len(s@.take(i as int));
        }
        if c == '/' {
            let seg = s.substring_char(start, i).to_owned();
            out.push(seg);
            proof {
                assert(str_views(out@) =~~= str_views(out@.drop_last()) + seq![
                    s@.subrange(start as int, i as int),
                ]);
                assert(split_slash(s@.take(i as int + 1)) =~~= str_views(out@) + seq![
                    s@.subrange(i as int + 1, i as int + 1),
                ]);
            }
            start = i + 1;
        } else {
            proof {
                let r0 = split_slash(s@.take(i as int));
                assert(r0.last() =~= s@.subrange(start as int, i as int));
                assert(s@.subrange(start as int, i as int) + seq![s@[i as int]] =~= s@.subrange(
                    start as int,
                    i as int + 1,
                ));
                assert(split_slash(s@.take(i as int + 1)) =~~= str_views(out@) + seq![
                    s@.subrange(start as int, i as int + 1),
                ]);
            }
        }
        i = i + 1;
    }
    let seg = s.substring_char(start, n).to_owned();
    out.push(seg);
    proof {
        assert(s@.take(n as int) =~= s@);
        assert(str_views(out@) =~~= str_views(out@.drop_last()) + seq![
            s@.subrange(start as int, n as int),
        ]);
        assert(str_views(out@) =~~= split_slash(s@));
    }
    out
}

/// Whether two strings hold the same characters.
pub fn str_eq(a: &str, b: &str) -> (r: bool)
    ensures
        r == (a@ == b@),
{
    let na = a.unicode_len();
    let nb = b.unicode_len();
    if na != nb {
        proof {
            assert(a@.len() != b@.len());
        }
        return false;
    }
    let mut i: usize = 0;
    while i < na
        invariant
            0 <= i <= na,
            na == a@.len(),
            na == b@.len(),
            forall|j: int| 0 <= j < i ==> a@[j] == b@[j],
        decreases na - i,
    {
        if a.get_char(i) != b.get_char(i) {
            return false;
        }
        i = i + 1;
    }
    proof {
        assert(a@ =~= b@);
    }
    true
}

/// The index of the first `@` chunk at or after position `i`, or the number
/// of chunks when there is none.
pub open spec fn first_at(sgs: Seq<Seq<char>>, i: int) -> int
    decreases sgs.len() - i,
{
    if i < 0 || i >= sgs.len() {
        sgs.len() as int
    } else if sgs[i] == seq!['@'] {
        i
    } else {
        first_at(sgs, i + 1)
    }
}

/// What one liveliness token announces.
pub enum TokenParse {
    /// A sequenced publisher: query its cache and track it by sequence number.
    Sequenced(SourceId),
    /// A timestamped origin, marked by the reserved `uhlc` entity chunk.
    Timestamped(u128),
    /// The shape is right but the node id does not parse: fall back to a
    /// globally gated history query.
    Fallback,
    /// The shape and node id are right but the entity chunk is neither the
    /// reserved marker nor a decimal entity id: ignore the token.
    BadEid,
    /// Not a liveliness token of this scheme at all.
    Malformed,
}

/// A node id chunk: hexadecimal without leading zero.
pub open spec fn zid_chunk_ok(z: Seq<char>) -> bool {
    z.len() >= 1 && z[0] != '0' && all_hex(z) && hex_val(z) <= u128::MAX
}

/// An entity id chunk: decimal that fits.
pub open spec fn eid_chunk_ok(e: Seq<char>) -> bool {
    e.len() >= 1 && all_dec(e) && dec_val(e) <= u32::MAX
}

/// The token grammar `@adv/<role>/<zid>/<eid>/<meta...>/@/<ke>`: at least
/// six chunks, the `@adv` prefix, and a lone `@` chunk after the metadata
/// with the token's own key expression behind it.
pub open spec fn token_shape_ok(sgs: Seq<Seq<char>>) -> bool {
    &&& sgs.len() >= 6
    &&& sgs[0] == seq!['@', 'a', 'd', 'v']
    &&& first_at(sgs, 4) < sgs.len() - 1
}

/// The meaning of one liveliness token key expression.
pub open spec fn token_parse_spec(sgs: Seq<Seq<char>>) -> TokenParse {
    if !token_shape_ok(sgs) {
        TokenParse::Malformed
    } else if !zid_chunk_ok(sgs[2]) {
        TokenParse::Fallback
    } else if sgs[3] == seq!['u', 'h', 'l', 'c'] {
        TokenParse::Timestamped(hex_val(sgs[2]) as u128)
    } else if eid_chunk_ok(sgs[3]) {
        TokenParse::Sequenced(
            SourceId { zid: hex_val(sgs[2]) as u128, eid: dec_val(sgs[3]) as u32 },
        )
    } else {
        TokenParse::BadEid
    }
}

/// Parse a liveliness token key expression.
pub fn parse_liveliness_token(ke: &str) -> (r: TokenParse)
    ensures
        r == token_parse_spec(split_slash(ke@)),
{
    proof {
        reveal_strlit("@adv");
        reveal_strlit("@");
        reveal_strlit("uhlc");
    }
    let segs = split_slashes(ke);
    let ghost sgs = split_slash(ke@);
    let n = segs.len();
    if n < 6 {
        return TokenParse::Malformed;
    }
    assert(segs@[0]@ == sgs[0]);
    if !str_eq(segs[0].as_str(), "@adv") {
        assert("@adv"@ =~= seq!['@', 'a', 'd', 'v']);
        return TokenParse::Malformed;
    }
    assert(sgs[0] =~= seq!['@', 'a', 'd', 'v']);
    // find the first `@` chunk after the metadata position
    let mut j: usize = 4;
    while j < n && !str_eq(segs[j].as_str(), "@")
        invariant
            4 <= j <= n,
            n == segs@.len(),
            str_views(segs@) == sgs,
            forall|k: int| 4 <= k < j ==> sgs[k] != seq!['@'],
            "@"@ == seq!['@'],
        decreases n - j,
    {
        assert(segs@[j as int]@ == sgs[j as int]);
        j = j + 1;
    }
    proof {
        if j < n {
            assert(segs@[j as int]@ == sgs[j as int]);
            assert(sgs[j as int] == seq!['@']);
        }
        lemma_first_at(sgs, 4, j as int);
    }
    if j >= n - 1 {
        return TokenParse::Malformed;
    }
    assert(token_shape_ok(sgs));
    assert(segs@[2]@ == sgs[2]);
    assert(segs@[3]@ == sgs[3]);
    let zid = match parse_hex_u128(segs[2].as_str()) {
        Some(z) => z,
        None => {
            return TokenParse::Fallback;
        }
    };
    assert("uhlc"@ =~= seq!['u', 'h', 'l', 'c']);
    if str_eq(segs[3].as_str(), "uhlc") {
        return TokenParse::Timestamped(zid);
    }
    assert(sgs[3] != seq!['u', 'h', 'l', 'c']);
    match parse_dec_u32(segs[3].as_str()) {
        Some(eid) => TokenParse::Sequenced(SourceId { zid, eid }),
        None => TokenParse::BadEid,
    }
}

/// Where a scan that saw no `@` chunk in `i..j` stops, `first_at` agrees.
proof fn lemma_first_at(sgs: Seq<Seq<char>>, i: int, j: int)
    requires
        0 <= i <= j <= sgs.len(),
        forall|k: int| i <= k < j ==> sgs[k] != seq!['@'],
        j < sgs.len() ==> sgs[j] == seq!['@'],
    ensures
        first_at(sgs, i) == j,
    decreases j - i,
{
    if i < j {
        lemma_first_at(sgs, i + 1, j);
    }
}

} // verus!
