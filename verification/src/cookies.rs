use vstd::prelude::*;

verus! {

/// The position of the first `'='` in a cookie header value, or the full
/// length when none occurs: the characters before it name the cookie.
pub open spec fn eq_split(s: Seq<char>) -> int
    decreases s.len(),
{
    if s.len() == 0 {
        0
    } else if s[0] == '=' {
        0
    } else {
        1 + eq_split(s.skip(1))
    }
}

pub proof fn lemma_eq_split_range(s: Seq<char>)
    ensures
        0 <= eq_split(s) <= s.len(),
    decreases s.len(),
{
    if s.len() > 0 && s[0] != '=' {
        lemma_eq_split_range(s.skip(1));
    }
}

/// The name a `Set-Cookie` header value carries: everything before the
/// first `'='` (the whole value when there is none).
pub open spec fn cookie_name_of(s: Seq<char>) -> Seq<char> {
    s.take(eq_split(s))
}

/// The first entry carrying name `k`, or -1 when the name is absent.
pub open spec fn cookie_index(m: Seq<(Seq<char>, Seq<char>)>, k: Seq<char>) -> int
    decreases m.len(),
{
    if m.len() == 0 {
        -1
    } else if m[0].0 == k {
        0
    } else if cookie_index(m.skip(1), k) == -1 {
        -1
    } else {
        cookie_index(m.skip(1), k) + 1
    }
}

/// Storing one `Set-Cookie` value: the full value is filed under the
/// cookie's name, overwriting an entry of the same name in place or
/// appending a fresh one.
pub open spec fn store_cookie_model(m: Seq<(Seq<char>, Seq<char>)>, v: Seq<char>) -> Seq<
    (Seq<char>, Seq<char>),
> {
    let name = cookie_name_of(v);
    let i = cookie_index(m, name);
    if i == -1 {
        m.push((name, v))
    } else {
        m.update(i, (name, v))
    }
}

/// Storing a whole batch of `Set-Cookie` values, in order.
pub open spec fn store_cookies_model(m: Seq<(Seq<char>, Seq<char>)>, hs: Seq<Seq<char>>) -> Seq<
    (Seq<char>, Seq<char>),
>
    decreases hs.len(),
{
    if hs.len() == 0 {
        m
    } else {
        store_cookies_model(store_cookie_model(m, hs[0]), hs.skip(1))
    }
}

/// The "; "-joined concatenation of the stored cookie values.
pub open spec fn join_values(m: Seq<(Seq<char>, Seq<char>)>, sep: Seq<char>) -> Seq<char>
    decreases m.len(),
{
    if m.len() == 0 {
        Seq::empty()
    } else if m.len() == 1 {
        m[0].1
    } else {
        m[0].1 + sep + join_values(m.skip(1), sep)
    }
}

/// One virtual user's cookie jar: a mapping from cookie name to the full
/// `Set-Cookie` header value it last arrived in.
pub struct CookieStore {
    pub entries: Vec<(String, String)>,
}

/// The mathematical content of a cookie store.
pub open spec fn store_view(cs: CookieStore) -> Seq<(Seq<char>, Seq<char>)> {
    Seq::new(cs.entries@.len(), |i: int| (cs.entries@[i].0@, cs.entries@[i].1@))
}

/// Names are unique: the store is a mapping.
pub open spec fn cookie_wf(cs: CookieStore) -> bool {
    forall|i: int, j: int|
        0 <= i < j < cs.entries@.len() ==> cs.entries@[i].0@ != cs.entries@[j].0@
}

/// `cookie_index` names the first entry carrying the name, when one exists.
proof fn lemma_cookie_index_props(m: Seq<(Seq<char>, Seq<char>)>, k: Seq<char>)
    ensures
        cookie_index(m, k) == -1 ==> forall|i: int| 0 <= i < m.len() ==> m[i].0 != k,
        cookie_index(m, k) != -1 ==> 0 <= cookie_index(m, k) < m.len() && m[cookie_index(m, k)].0
            == k && forall|i: int| 0 <= i < cookie_index(m, k) ==> m[i].0 != k,
    decreases m.len(),
{
    if m.len() > 0 && m[0].0 != k {
        lemma_cookie_index_props(m.skip(1), k);
        assert(forall|i: int| 1 <= i < m.len() ==> m[i] == m.skip(1)[i - 1]);
        let f = cookie_index(m.skip(1), k);
        if f != -1 {
            assert(m.skip(1)[f] == m[f + 1]);
            assert(cookie_index(m, k) == f + 1);
        }
    }
}

/// Appending an entry under a fresh name files it at the end.
proof fn lemma_cookie_index_push_absent(m: Seq<(Seq<char>, Seq<char>)>, k: Seq<char>, v: Seq<char>)
    requires
        cookie_index(m, k) == -1,
    ensures
        cookie_index(m.push((k, v)), k) == m.len(),
    decreases m.len(),
{
    if m.len() == 0 {
        assert(m.push((k, v))[0] == (k, v));
    } else {
        assert(m[0].0 != k);
        lemma_cookie_index_props(m.skip(1), k);
        assert(cookie_index(m.skip(1), k) == -1);
        assert(m.push((k, v))[0] == m[0]);
        assert(m.push((k, v)).skip(1) =~= m.skip(1).push((k, v)));
        lemma_cookie_index_push_absent(m.skip(1), k, v);
    }
}

/// Overwriting an entry without changing its name leaves every lookup
/// where it was.
proof fn lemma_cookie_index_update_same(
    m: Seq<(Seq<char>, Seq<char>)>,
    j: int,
    v: Seq<char>,
    k: Seq<char>,
)
    requires
        0 <= j < m.len(),
    ensures
        cookie_index(m.update(j, (m[j].0, v)), k) == cookie_index(m, k),
    decreases m.len(),
{
    let mu = m.update(j, (m[j].0, v));
    assert(mu[0].0 == m[0].0);
    if j == 0 {
        assert(mu.skip(1) =~= m.skip(1));
    } else {
        assert(mu.skip(1) =~= m.skip(1).update(j - 1, (m.skip(1)[j - 1].0, v)));
        lemma_cookie_index_update_same(m.skip(1), j - 1, v, k);
    }
}

/// Feeding the same `Set-Cookie` value again changes nothing: the second
/// write lands on the entry the first one made, with the same content.
pub proof fn lemma_store_cookie_idempotent(m: Seq<(Seq<char>, Seq<char>)>, v: Seq<char>)
    ensures
        store_cookie_model(store_cookie_model(m, v), v) == store_cookie_model(m, v),
{
    let name = cookie_name_of(v);
    let i = cookie_index(m, name);
    let m1 = store_cookie_model(m, v);
    if i == -1 {
        lemma_cookie_index_push_absent(m, name, v);
        assert(cookie_index(m1, name) == m.len());
        assert(m1.update(m.len() as int, (name, v)) =~= m1);
    } else {
        lemma_cookie_index_props(m, name);
        lemma_cookie_index_update_same(m, i, v, name);
        assert(cookie_index(m1, name) == i);
        assert(m1.update(i, (name, v)) =~= m1);
    }
}

/// Find the position of the first `'='` in `s`, or its length when none
/// occurs.
fn find_eq(s: &str) -> (i: usize)
    ensures
        i as int == eq_split(s@),
        i <= s@.len(),
{
    let n = s.unicode_len();
    proof {
        assert(s@.skip(0) =~= s@);
    }
    let mut i: usize = 0;
    while i < n
        invariant
            n == s@.len(),
            0 <= i <= n,
            eq_split(s@) == i + eq_split(s@.skip(i as int)),
        decreases n - i,
    {
        proof {
            assert(s@.skip(i as int)[0] == s@[i as int]);
            assert(s@.skip(i as int).skip(1) =~= s@.skip(i as int + 1));
            lemma_eq_split_range(s@.skip(i as int + 1));
        }
        let c = s.get_char(i);
        if c == '=' {
            return i;
        }
        i = i + 1;
    }
    proof {
        assert(s@.skip(n as int) =~= Seq::<char>::empty());
    }
    i
}

impl CookieStore {
    /// A fresh, empty jar for a newly spawned user.
    pub fn new() -> (cs: CookieStore)
        ensures
            store_view(cs).len() == 0,
            cookie_wf(cs),
    {
        let cs = CookieStore { entries: Vec::new() };
        proof {
            assert(store_view(cs) =~= Seq::<(Seq<char>, Seq<char>)>::empty());
        }
        cs
    }

    pub fn is_empty(&self) -> (b: bool)
        ensures
            b == (store_view(*self).len() == 0),
    {
        self.entries.len() == 0
    }

    /// File one `Set-Cookie` header value under the name before its first
    /// `'='`, overwriting a same-named entry.
    pub fn store_cookie(&mut self, header_value: &str)
        requires
            cookie_wf(*old(self)),
        ensures
            cookie_wf(*final(self)),
            store_view(*final(self)) == store_cookie_model(store_view(*old(self)), header_value@),
    {
        proof {
            lemma_eq_split_range(header_value@);
            lemma_cookie_index_props(store_view(*self), cookie_name_of(header_value@));
            assert(forall|l: int|
                0 <= l < self.entries@.len() ==> #[trigger] store_view(*self)[l].0
                    == self.entries@[l].0@);
        }
        let split = find_eq(header_value);
        let name_str = header_value.substring_char(0, split);
        proof {
            assert(name_str@ =~= cookie_name_of(header_value@));
        }
        let name: String = name_str.to_owned();
        let value: String = header_value.to_owned();
        let ghost before = store_view(*self);
        let ghost k = cookie_name_of(header_value@);

        let mut j: usize = 0;
        let n = self.entries.len();
        while j < n
            invariant
                n == self.entries@.len(),
                0 <= j <= n,
                name@ == k,
                value@ == header_value@,
                k == cookie_name_of(header_value@),
                forall|l: int| 0 <= l < j ==> self.entries@[l].0@ != k,
                cookie_wf(*self),
                store_view(*self) == before,
                before == store_view(*old(self)),
            decreases n - j,
        {
            if self.entries[j].0.eq(&name) {
                proof {
                    lemma_cookie_index_props(before, k);
                    assert(forall|l: int|
                        0 <= l < self.entries@.len() ==> #[trigger] store_view(*self)[l].0
                            == self.entries@[l].0@);
                    let fk = cookie_index(before, k);
                    assert(before[j as int].0 == self.entries@[j as int].0@);
                    if fk == -1 {
                        assert(before[j as int].0 != k);
                        assert(false);
                    } else if fk < j as int {
                        assert(self.entries@[fk].0@ != k);
                        assert(before[fk].0 == self.entries@[fk].0@);
                        assert(false);
                    } else if fk > j as int {
                        assert(before[j as int].0 != k);
                        assert(false);
                    }
                }
                self.entries[j] = (name, value);
                proof {
                    assert(store_view(*self) =~= before.update(j as int, (k, header_value@)));
                    assert(forall|a: int, b: int|
                        0 <= a < b < self.entries@.len() ==> self.entries@[a].0@
                            != self.entries@[b].0@);
                }
                return ;
            }
            j = j + 1;
        }
        proof {
            lemma_cookie_index_props(before, k);
            let fk = cookie_index(before, k);
            if fk != -1 {
                assert(before[fk].0 == self.entries@[fk].0@);
                assert(false);
            }
        }
        self.entries.push((name, value));
        proof {
            assert(store_view(*self) =~= before.push((k, header_value@)));
        }
    }

    /// File a whole batch of `Set-Cookie` header values, in order.
    pub fn store_cookies(&mut self, header_values: &Vec<String>)
        requires
            cookie_wf(*old(self)),
        ensures
            cookie_wf(*final(self)),
            store_view(*final(self)) == store_cookies_model(
                store_view(*old(self)),
                crate::cookies::strs_view(header_values@),
            ),
    {
        let ghost hs = strs_view(header_values@);
        let ghost target = store_cookies_model(store_view(*self), hs);
        proof {
            assert(hs.skip(0) =~= hs);
        }
        let mut i: usize = 0;
        while i < header_values.len()
            invariant
                0 <= i <= header_values@.len(),
                hs == strs_view(header_values@),
                cookie_wf(*self),
                store_cookies_model(store_view(*self), hs.skip(i as int)) == target,
            decreases header_values@.len() - i,
        {
            proof {
                assert(hs.skip(i as int)[0] == hs[i as int]);
                assert(hs.skip(i as int).skip(1) =~= hs.skip(i as int + 1));
            }
            self.store_cookie(header_values[i].as_str());
            i = i + 1;
        }
        proof {
            assert(hs.skip(header_values@.len() as int) =~= Seq::<Seq<char>>::empty());
        }
    }

    /// The `"; "`-joined concatenation of all stored cookie values, the
    /// value of the synthesised `cookie` header.
    pub fn cookie_header(&self) -> (h: String)
        ensures
            h@ == join_values(store_view(*self), "; "@),
    {
        let ghost view = store_view(*self);
        let mut h = String::new();
        let n = self.entries.len();
        proof {
            assert(view.take(0) =~= Seq::<(Seq<char>, Seq<char>)>::empty());
        }
        let mut i: usize = 0;
        while i < n
            invariant
                n == self.entries@.len(),
                view == store_view(*self),
                0 <= i <= n,
                h@ == join_values(view.take(i as int), "; "@),
            decreases n - i,
        {
            proof {
                assert(view.take(i as int + 1) =~= view.take(i as int).push(view[i as int]));
                lemma_join_snoc(view.take(i as int), view[i as int], "; "@);
                assert(view[i as int].1 == self.entries@[i as int].1@);
            }
            if i > 0 {
                h.append("; ");
            }
            h.append(self.entries[i].1.as_str());
            i = i + 1;
        }
        proof {
            assert(view.take(n as int) =~= view);
        }
        h
    }
}

/// The views of a vector of strings.
pub open spec fn strs_view(v: Seq<String>) -> Seq<Seq<char>> {
    Seq::new(v.len(), |i: int| v[i]@)
}

/// Joining one more value appends it, preceded by the separator unless it
/// is the first.
proof fn lemma_join_snoc(m: Seq<(Seq<char>, Seq<char>)>, p: (Seq<char>, Seq<char>), sep: Seq<char>)
    ensures
        m.len() == 0 ==> join_values(m.push(p), sep) == p.1,
        m.len() >= 1 ==> join_values(m.push(p), sep) == join_values(m, sep) + sep + p.1,
    decreases m.len(),
{
    let mp = m.push(p);
    if m.len() == 0 {
        assert(mp[0] == p);
        assert(mp.len() == 1);
        assert(join_values(mp, sep) == p.1);
    } else {
        assert(mp[0] == m[0]);
        assert(mp.skip(1) =~= m.skip(1).push(p));
        lemma_join_snoc(m.skip(1), p, sep);
        if m.len() == 1 {
            assert(join_values(mp, sep) == mp[0].1 + sep + join_values(mp.skip(1), sep));
            assert(join_values(m.skip(1).push(p), sep) == p.1);
            assert(join_values(m, sep) == m[0].1);
        } else {
            assert(join_values(mp, sep) == mp[0].1 + sep + join_values(mp.skip(1), sep));
            assert(join_values(m, sep) == m[0].1 + sep + join_values(m.skip(1), sep));
            assert((m[0].1 + sep + join_values(m.skip(1), sep)) + sep + p.1 =~= m[0].1 + sep + (
            join_values(m.skip(1), sep) + sep + p.1));
        }
    }
}

} // verus!
