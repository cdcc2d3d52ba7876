use vstd::prelude::*;

verus! {

/// Leftmost, non-overlapping replacement of every occurrence of `pat` in
/// `s` by `val` (the identity for an empty pattern).
pub open spec fn spec_replace_all(s: Seq<char>, pat: Seq<char>, val: Seq<char>) -> Seq<char>
    decreases s.len(),
{
    if pat.len() == 0 || s.len() == 0 {
        s
    } else if s.len() >= pat.len() && s.take(pat.len() as int) == pat {
        val + spec_replace_all(s.skip(pat.len() as int), pat, val)
    } else {
        seq![s[0]] + spec_replace_all(s.skip(1), pat, val)
    }
}

/// Whether `pat` occurs in `s` at position `i`.
fn matches_at(s: &str, i: usize, pat: &str) -> (b: bool)
    requires
        i <= s@.len(),
    ensures
        b == (i + pat@.len() <= s@.len() && s@.subrange(i as int, i as int + pat@.len() as int)
            == pat@),
{
    let n = s.unicode_len();
    let plen = pat.unicode_len();
    if plen > n - i {
        return false;
    }
    let mut j: usize = 0;
    while j < plen
        invariant
            n == s@.len(),
            plen == pat@.len(),
            i + plen <= n,
            0 <= j <= plen,
            forall|l: int| 0 <= l < j ==> s@[i + l] == pat@[l],
        decreases plen - j,
    {
        let cs = s.get_char(i + j);
        let cp = pat.get_char(j);
        if cs != cp {
            proof {
                let sub = s@.subrange(i as int, i as int + plen as int);
                assert(sub[j as int] == s@[i + j]);
            }
            return false;
        }
        j = j + 1;
    }
    proof {
        assert(s@.subrange(i as int, i as int + plen as int) =~= pat@);
    }
    true
}

/// Replace every occurrence of `pat` in `s` by `val`, scanning left to
/// right and never rescanning replaced text.
pub fn replace_all(s: &str, pat: &str, val: &str) -> (r: String)
    requires
        pat@.len() >= 1,
    ensures
        r@ == spec_replace_all(s@, pat@, val@),
{
    let n = s.unicode_len();
    let plen = pat.unicode_len();
    let mut out = String::new();
    proof {
        assert(s@.skip(0) =~= s@);
        assert(out@ + spec_replace_all(s@, pat@, val@) =~= spec_replace_all(s@, pat@, val@));
    }
    let mut i: usize = 0;
    while i < n
        invariant
            n == s@.len(),
            plen == pat@.len(),
            plen >= 1,
            0 <= i <= n,
            out@ + spec_replace_all(s@.skip(i as int), pat@, val@) == spec_replace_all(
                s@,
                pat@,
                val@,
            ),
        decreases n - i,
    {
        let ghost rest = s@.skip(i as int);
        let is_match = matches_at(s, i, pat);
        if is_match {
            proof {
                assert(rest.take(plen as int) =~= s@.subrange(i as int, i as int + plen as int));
                assert(rest.skip(plen as int) =~= s@.skip(i as int + plen as int));
                assert(spec_replace_all(rest, pat@, val@) == val@ + spec_replace_all(
                    s@.skip(i as int + plen as int),
                    pat@,
                    val@,
                ));
                assert((out@ + val@) + spec_replace_all(s@.skip(i as int + plen as int), pat@, val@)
                    =~= out@ + (val@ + spec_replace_all(s@.skip(i as int + plen as int), pat@, val@)));
            }
            out.append(val);
            i = i + plen;
        } else {
            let c = s.substring_char(i, i + 1);
            proof {
                assert(rest[0] == s@[i as int]);
                assert(c@ =~= seq![s@[i as int]]);
                assert(rest.skip(1) =~= s@.skip(i as int + 1));
                if rest.len() >= plen && rest.take(plen as int) == pat@ {
                    assert(rest.take(plen as int) =~= s@.subrange(
                        i as int,
                        i as int + plen as int,
                    ));
                    assert(false);
                }
                assert(spec_replace_all(rest, pat@, val@) == seq![s@[i as int]]
                    + spec_replace_all(s@.skip(i as int + 1), pat@, val@));
                assert((out@ + c@) + spec_replace_all(s@.skip(i as int + 1), pat@, val@) =~= out@ + (
                c@ + spec_replace_all(s@.skip(i as int + 1), pat@, val@)));
            }
            out.append(c);
            i = i + 1;
        }
    }
    proof {
        assert(s@.skip(n as int) =~= Seq::<char>::empty());
        assert(out@ + Seq::<char>::empty() =~= out@);
    }
    out
}

/// The views of a vector of string pairs.
pub open spec fn pairs_view(v: Seq<(String, String)>) -> Seq<(Seq<char>, Seq<char>)> {
    Seq::new(v.len(), |i: int| (v[i].0@, v[i].1@))
}

/// The value filed under `k` in an ordered list of pairs, or the empty
/// string when the key is absent.
pub open spec fn lookup(params: Seq<(Seq<char>, Seq<char>)>, k: Seq<char>) -> Seq<char>
    decreases params.len(),
{
    if params.len() == 0 {
        Seq::empty()
    } else if params[0].0 == k {
        params[0].1
    } else {
        lookup(params.skip(1), k)
    }
}

/// The literal placeholder that a declared name stands for in a URL
/// template: the name wrapped in braces.
pub open spec fn brace(name: Seq<char>) -> Seq<char> {
    seq!['{'] + name + seq!['}']
}

/// Interpolating a URL template: for each declared placeholder name in
/// order, every occurrence of its braced form is replaced by the value
/// supplied for it (the empty string when none is).
pub open spec fn spec_interpolate(
    u: Seq<char>,
    args: Seq<Seq<char>>,
    params: Seq<(Seq<char>, Seq<char>)>,
) -> Seq<char>
    decreases args.len(),
{
    if args.len() == 0 {
        u
    } else {
        spec_interpolate(
            spec_replace_all(u, brace(args[0]), lookup(params, args[0])),
            args.skip(1),
            params,
        )
    }
}

/// Look a placeholder name up among the supplied parameters.
fn lookup_param(params: &Vec<(String, String)>, k: &String) -> (v: String)
    ensures
        v@ == lookup(pairs_view(params@), k@),
{
    let n = params.len();
    proof {
        assert(pairs_view(params@).skip(0) =~= pairs_view(params@));
    }
    let mut j: usize = 0;
    while j < n
        invariant
            n == params@.len(),
            0 <= j <= n,
            lookup(pairs_view(params@), k@) == lookup(pairs_view(params@).skip(j as int), k@),
        decreases n - j,
    {
        proof {
            assert(pairs_view(params@).skip(j as int)[0] == pairs_view(params@)[j as int]);
            assert(pairs_view(params@).skip(j as int).skip(1) =~= pairs_view(params@).skip(
                j as int + 1,
            ));
        }
        if params[j].0.eq(k) {
            return params[j].1.clone();
        }
        j = j + 1;
    }
    proof {
        assert(pairs_view(params@).skip(n as int) =~= Seq::<(Seq<char>, Seq<char>)>::empty());
    }
    String::new()
}

/// Interpolate a URL template: replace each declared placeholder, in
/// order, by the value supplied for it, or by the empty string when the
/// parameter set does not name it.
pub fn interpolate(url: &str, args: &Vec<String>, params: &Option<Vec<(String, String)>>) -> (r:
    String)
    ensures
        r@ == spec_interpolate(
            url@,
            crate::cookies::strs_view(args@),
            match *params {
                Some(ps) => pairs_view(ps@),
                None => Seq::empty(),
            },
        ),
{
    let ghost argsv = crate::cookies::strs_view(args@);
    let ghost paramsv: Seq<(Seq<char>, Seq<char>)> = match params {
        Some(ps) => pairs_view(ps@),
        None => Seq::empty(),
    };
    let mut cur: String = url.to_owned();
    proof {
        assert(argsv.skip(0) =~= argsv);
    }
    let n = args.len();
    let mut i: usize = 0;
    while i < n
        invariant
            n == args@.len(),
            0 <= i <= n,
            argsv == crate::cookies::strs_view(args@),
            paramsv == (match *params {
                Some(ps) => pairs_view(ps@),
                None => Seq::<(Seq<char>, Seq<char>)>::empty(),
            }),
            spec_interpolate(cur@, argsv.skip(i as int), paramsv) == spec_interpolate(
                url@,
                argsv,
                paramsv,
            ),
        decreases n - i,
    {
        proof {
            assert(argsv.skip(i as int)[0] == argsv[i as int]);
            assert(argsv.skip(i as int).skip(1) =~= argsv.skip(i as int + 1));
        }
        let arg = &args[i];
        let mut pat = String::new();
        pat.append("{");
        pat.append(arg.as_str());
        pat.append("}");
        proof {
            reveal_strlit("{");
            reveal_strlit("}");
            assert(pat@ =~= brace(argsv[i as int]));
        }
        let value: String = match params {
            Some(ps) => lookup_param(ps, arg),
            None => String::new(),
        };
        proof {
            assert(value@ == lookup(paramsv, argsv[i as int]));
        }
        cur = replace_all(cur.as_str(), pat.as_str(), &value);
        i = i + 1;
    }
    proof {
        assert(argsv.skip(n as int) =~= Seq::<Seq<char>>::empty());
    }
    cur
}

} // verus!
