use vstd::prelude::*;

verus! {

/// Splits `s` at every `::`, scanning left to right; `cur` holds the
/// characters of the segment being read.
pub open spec fn split_acc(s: Seq<char>, cur: Seq<char>) -> Seq<Seq<char>>
    decreases s.len(),
{
    if s.len() == 0 {
        seq![cur]
    } else if s.len() >= 2 && s[0] == ':' && s[1] == ':' {
        seq![cur] + split_acc(s.skip(2), Seq::empty())
    } else {
        split_acc(s.skip(1), cur.push(s[0]))
    }
}

/// The pieces of `s` between its non-overlapping `::` separators.
pub open spec fn split_path(s: Seq<char>) -> Seq<Seq<char>> {
    split_acc(s, Seq::empty())
}

/// The segments joined by `::`.
pub open spec fn join_path(segs: Seq<Seq<char>>) -> Seq<char>
    decreases segs.len(),
{
    if segs.len() == 0 {
        Seq::empty()
    } else if segs.len() == 1 {
        segs[0]
    } else {
        join_path(segs.drop_last()) + seq![':', ':'] + segs.last()
    }
}

/// Every segment is non-empty.
pub open spec fn segments_nonempty(segs: Seq<Seq<char>>) -> bool {
    forall|i: int| 0 <= i < segs.len() ==> #[trigger] segs[i].len() > 0
}

/// The views of a vector of strings.
pub open spec fn strings_view(v: Seq<String>) -> Seq<Seq<char>> {
    v.map_values(|s: String| s@)
}

/// A fully-qualified Rust path, e.g. `["a", "b", "c", "OldName"]`.
#[derive(Debug, Clone, PartialEq, Eq)]
pub struct RustPath(pub Vec<String>);

impl View for RustPath {
    type V = Seq<Seq<char>>;

    open spec fn view(&self) -> Seq<Seq<char>> {
        strings_view(self.0@)
    }
}

/// The characters of `s`, in order.
pub fn str_chars(s: &str) -> (res: Vec<char>)
    ensures
        res@ == s@,
{
    let mut res: Vec<char> = Vec::new();
    for c in it: s.chars()
        invariant
            res@ == it.seq().take(it.index() as int),
            it.seq() == s@,
    {
        res.push(c);
    }
    res
}

/// Calls `String::push`, which appends the character `c` to `s`.
#[verifier::external_body]
pub(crate) fn string_push(s: &mut String, c: char)
    ensures
        final(s)@ == old(s)@.push(c),
{
    s.push(c);
}

/// A copy of every string of `v`.
pub fn clone_strings(v: &Vec<String>) -> (res: Vec<String>)
    ensures
        res@ == v@,
{
    let mut res: Vec<String> = Vec::new();
    for i in 0..v.len()
        invariant
            res@ == v@.take(i as int),
    {
        res.push(v[i].clone());
        assert(res@ == v@.take(i + 1));
    }
    assert(v@.take(v.len() as int) == v@);
    res
}

/// Whether two string vectors hold the same strings.
pub fn strings_eq(a: &Vec<String>, b: &Vec<String>) -> (res: bool)
    ensures
        res == (strings_view(a@) == strings_view(b@)),
{
    if a.len() != b.len() {
        assert(strings_view(a@).len() != strings_view(b@).len());
        return false;
    }
    for i in 0..a.len()
        invariant
            a.len() == b.len(),
            forall|j: int| 0 <= j < i ==> a@[j]@ == b@[j]@,
    {
        if a[i] != b[i] {
            assert(strings_view(a@)[i as int] != strings_view(b@)[i as int]);
            return false;
        }
    }
    assert(strings_view(a@) =~= strings_view(b@));
    true
}

/// Whether `pre` is a prefix of `v`.
pub fn strings_prefix(pre: &Vec<String>, v: &Vec<String>) -> (res: bool)
    ensures
        res == strings_view(pre@).is_prefix_of(strings_view(v@)),
{
    if pre.len() > v.len() {
        return false;
    }
    for i in 0..pre.len()
        invariant
            pre.len() <= v.len(),
            forall|j: int| 0 <= j < i ==> pre@[j]@ == v@[j]@,
    {
        if pre[i] != v[i] {
            assert(strings_view(pre@)[i as int] != strings_view(v@).subrange(0, pre.len() as int)[i as int]);
            return false;
        }
    }
    assert(strings_view(pre@) =~= strings_view(v@).subrange(0, pre.len() as int));
    true
}

/// The string made of the characters `s[from..to]`.
pub fn string_of_range(s: &Vec<char>, from: usize, to: usize) -> (res: String)
    requires
        from <= to <= s.len(),
    ensures
        res@ == s@.subrange(from as int, to as int),
{
    let mut res = String::new();
    let mut i = from;
    while i < to
        invariant
            from <= i <= to <= s.len(),
            res@ == s@.subrange(from as int, i as int),
        decreases to - i,
    {
        string_push(&mut res, s[i]);
        assert(res@ == s@.subrange(from as int, i + 1));
        i += 1;
    }
    res
}

impl RustPath {
    /// Parses `a::b::c` into its segments. The path is refused when it is
    /// empty or when one of its segments is empty.
    pub fn parse(s: &str) -> (res: Result<Self, String>)
        ensures
            s@.len() == 0 ==> (res matches Err(e) && e@ == "path must not be empty"@),
            s@.len() != 0 && !segments_nonempty(split_path(s@)) ==> (res matches Err(e) && e@
                == "invalid path segment in '"@ + s@ + "'"@),
            s@.len() != 0 && segments_nonempty(split_path(s@)) ==> (res matches Ok(p) && p@
                == split_path(s@)),
    {
        if s.is_empty() {
            return Err(String::from_str("path must not be empty"));
        }
        let chars = str_chars(s);
        let n = chars.len();
        let mut segs: Vec<String> = Vec::new();
        let mut cur = String::new();
        let mut i: usize = 0;
        assert(chars@.skip(0) =~= chars@);
        assert(strings_view(segs@) =~= Seq::<Seq<char>>::empty());
        while i < n
            invariant
                chars@ == s@,
                n == chars.len(),
                i <= n,
                split_path(s@) == strings_view(segs@) + split_acc(chars@.skip(i as int), cur@),
            decreases n - i,
        {
            if i + 1 < n && chars[i] == ':' && chars[i + 1] == ':' {
                proof {
                    let rest = chars@.skip(i as int);
                    assert(rest.skip(2) =~= chars@.skip(i + 2));
                    assert(strings_view(segs@.push(cur)) =~= strings_view(segs@) + seq![cur@]);
                }
                segs.push(cur);
                cur = String::new();
                i += 2;
            } else {
                proof {
                    let rest = chars@.skip(i as int);
                    assert(rest.skip(1) =~= chars@.skip(i + 1));
                }
                string_push(&mut cur, chars[i]);
                i += 1;
            }
        }
        proof {
            assert(chars@.skip(i as int).len() == 0);
            assert(strings_view(segs@.push(cur)) =~= strings_view(segs@) + seq![cur@]);
        }
        segs.push(cur);
        for k in 0..segs.len()
            invariant
                split_path(s@) == strings_view(segs@),
                s@.len() != 0,
                forall|j: int| 0 <= j < k ==> #[trigger] segs@[j]@.len() > 0,
        {
            if segs[k].as_str().is_empty() {
                let mut msg = String::from_str("invalid path segment in '");
                msg.append(s);
                msg.append("'");
                assert(strings_view(segs@)[k as int].len() == 0);
                return Err(msg);
            }
        }
        assert(segments_nonempty(split_path(s@)));
        Ok(RustPath(segs))
    }

    /// The last segment. The path must not be empty.
    pub fn last(&self) -> (res: &str)
        requires
            self@.len() > 0,
        ensures
            res@ == self@.last(),
    {
        self.0[self.0.len() - 1].as_str()
    }

    /// The path without its last segment, or `None` for a path of at most
    /// one segment.
    pub fn parent(&self) -> (res: Option<RustPath>)
        ensures
            self@.len() <= 1 ==> res is None,
            self@.len() > 1 ==> (res matches Some(p) && p@ == self@.drop_last()),
    {
        if self.0.len() <= 1 {
            None
        } else {
            let n = self.0.len() - 1;
            let mut segs: Vec<String> = Vec::new();
            for i in 0..n
                invariant
                    n == self.0.len() - 1,
                    segs@ == self.0@.take(i as int),
            {
                segs.push(self.0[i].clone());
                assert(segs@ == self.0@.take(i + 1));
            }
            assert(strings_view(segs@) =~= self@.drop_last());
            Some(RustPath(segs))
        }
    }

    /// Whether this path is a prefix of `other`, segment by segment.
    pub fn is_prefix_of(&self, other: &RustPath) -> (res: bool)
        ensures
            res == self@.is_prefix_of(other@),
    {
        strings_prefix(&self.0, &other.0)
    }

    /// If `self` starts with `from` as a prefix, the path where that prefix
    /// is replaced by `to`.
    pub fn rewrite_prefix(&self, from: &RustPath, to: &RustPath) -> (res: Option<RustPath>)
        ensures
            !from@.is_prefix_of(self@) ==> res is None,
            from@.is_prefix_of(self@) ==> (res matches Some(p) && p@ == to@ + self@.skip(
                from@.len() as int,
            )),
    {
        if strings_prefix(&from.0, &self.0) {
            let mut segs = clone_strings(&to.0);
            let start = from.0.len();
            for i in start..self.0.len()
                invariant
                    start == from.0.len(),
                    start <= self.0.len(),
                    segs@ == to.0@ + self.0@.subrange(start as int, i as int),
            {
                segs.push(self.0[i].clone());
                assert(segs@ == to.0@ + self.0@.subrange(start as int, i + 1));
            }
            assert(strings_view(segs@) =~= to@ + self@.skip(from@.len() as int));
            Some(RustPath(segs))
        } else {
            None
        }
    }

    /// The segments joined by `::`.
    pub fn to_string(&self) -> (res: String)
        ensures
            res@ == join_path(self@),
    {
        join_strings(&self.0)
    }
}

/// The strings of `v` joined by `::`.
pub fn join_strings(v: &Vec<String>) -> (res: String)
    ensures
        res@ == join_path(strings_view(v@)),
{
    let mut res = String::new();
    for i in 0..v.len()
        invariant
            res@ == join_path(strings_view(v@.take(i as int))),
    {
        proof {
            let pre = strings_view(v@.take(i + 1));
            assert(pre.drop_last() =~= strings_view(v@.take(i as int)));
            assert(pre.last() == v@[i as int]@);
        }
        if i > 0 {
            res.append("::");
            proof {
                reveal_strlit("::");
            }
        }
        res.append(v[i].as_str());
        proof {
            let pre = strings_view(v@.take(i + 1));
            if i == 0 {
                assert(strings_view(v@.take(0)) =~= Seq::<Seq<char>>::empty());
            }
        }
    }
    assert(v@.take(v.len() as int) =~= v@);
    res
}


/// No segment holds the character `:`.
pub open spec fn segments_colon_free(segs: Seq<Seq<char>>) -> bool {
    forall|i: int, k: int| 0 <= i < segs.len() && 0 <= k < segs[i].len() ==> #[trigger] segs[i][k] != ':'
}

proof fn lemma_join_cons(x: Seq<char>, tail: Seq<Seq<char>>)
    requires
        tail.len() > 0,
    ensures
        join_path(seq![x] + tail) == x + seq![':', ':'] + join_path(tail),
    decreases tail.len(),
{
    let s = seq![x] + tail;
    if tail.len() == 1 {
        assert(s.drop_last() =~= seq![x]);
        assert(join_path(tail) == tail[0]);
        assert(x + seq![':', ':'] + tail[0] =~= join_path(seq![x]) + seq![':', ':'] + s.last());
    } else {
        lemma_join_cons(x, tail.drop_last());
        assert(s.drop_last() =~= seq![x] + tail.drop_last());
        assert(join_path(s) =~= x + seq![':', ':'] + join_path(tail));
    }
}

proof fn lemma_join_split_acc(s: Seq<char>, cur: Seq<char>)
    ensures
        join_path(split_acc(s, cur)) == cur + s,
    decreases s.len(),
{
    if s.len() == 0 {
        assert(cur + s =~= cur);
    } else if s.len() >= 2 && s[0] == ':' && s[1] == ':' {
        lemma_join_split_acc(s.skip(2), Seq::empty());
        let rest = split_acc(s.skip(2), Seq::empty());
        lemma_split_acc_nonempty(s.skip(2), Seq::empty());
        lemma_join_cons(cur, rest);
        assert(Seq::<char>::empty() + s.skip(2) =~= s.skip(2));
        assert(cur + seq![':', ':'] + s.skip(2) =~= cur + s);
    } else {
        lemma_join_split_acc(s.skip(1), cur.push(s[0]));
        assert(cur.push(s[0]) + s.skip(1) =~= cur + s);
    }
}

proof fn lemma_split_acc_nonempty(s: Seq<char>, cur: Seq<char>)
    ensures
        split_acc(s, cur).len() > 0,
    decreases s.len(),
{
    if s.len() == 0 {
    } else if s.len() >= 2 && s[0] == ':' && s[1] == ':' {
    } else {
        lemma_split_acc_nonempty(s.skip(1), cur.push(s[0]));
    }
}

proof fn lemma_split_acc_plain(x: Seq<char>, rest: Seq<char>, cur: Seq<char>)
    requires
        forall|k: int| 0 <= k < x.len() ==> #[trigger] x[k] != ':',
    ensures
        split_acc(x + rest, cur) == split_acc(rest, cur + x),
    decreases x.len(),
{
    if x.len() == 0 {
        assert(x + rest =~= rest);
        assert(cur + x =~= cur);
    } else {
        let s = x + rest;
        assert(s[0] == x[0]);
        assert(s.skip(1) =~= x.skip(1) + rest);
        lemma_split_acc_plain(x.skip(1), rest, cur.push(x[0]));
        assert(cur.push(x[0]) + x.skip(1) =~= cur + x);
    }
}

proof fn lemma_split_join_acc(segs: Seq<Seq<char>>, cur: Seq<char>)
    requires
        segs.len() > 0,
        segments_colon_free(segs),
    ensures
        split_acc(join_path(segs), cur) == seq![cur + segs[0]] + segs.skip(1),
    decreases segs.len(),
{
    let x = segs[0];
    assert(forall|k: int| 0 <= k < x.len() ==> #[trigger] x[k] != ':') by {
        assert forall|k: int| 0 <= k < x.len() implies #[trigger] x[k] != ':' by {
            assert(segs[0][k] != ':');
        }
    }
    if segs.len() == 1 {
        lemma_split_acc_plain(x, Seq::empty(), cur);
        assert(x + Seq::<char>::empty() =~= x);
        assert(segs.skip(1) =~= Seq::<Seq<char>>::empty());
        assert(seq![cur + segs[0]] + segs.skip(1) =~= seq![cur + x]);
    } else {
        let tail = segs.skip(1);
        assert(segs =~= seq![x] + tail);
        lemma_join_cons(x, tail);
        assert(segments_colon_free(tail)) by {
            assert forall|i: int, k: int| 0 <= i < tail.len() && 0 <= k < tail[i].len() implies #[trigger] tail[i][k]
                != ':' by {
                assert(tail[i] == segs[i + 1]);
            }
        }
        let rest = seq![':', ':'] + join_path(tail);
        assert(x + seq![':', ':'] + join_path(tail) =~= x + rest);
        lemma_split_acc_plain(x, rest, cur);
        assert(rest.skip(2) =~= join_path(tail));
        lemma_split_join_acc(tail, Seq::empty());
        assert(Seq::<char>::empty() + tail[0] =~= tail[0]);
        assert(seq![cur + x] + (seq![tail[0]] + tail.skip(1)) =~= seq![cur + segs[0]] + segs.skip(1));
    }
}

/// Joining the segments that `parse` splits off gives back the text:
/// `to_string` of a parsed path is the parsed text.
pub proof fn lemma_join_split(s: Seq<char>)
    ensures
        join_path(split_path(s)) == s,
{
    lemma_join_split_acc(s, Seq::empty());
    assert(Seq::<char>::empty() + s =~= s);
}

/// A path of at least one segment, none of them holding `:`, splits back
/// into its segments: `parse` of `to_string` gives the path again.
pub proof fn lemma_split_join(segs: Seq<Seq<char>>)
    requires
        segs.len() > 0,
        segments_colon_free(segs),
    ensures
        split_path(join_path(segs)) == segs,
{
    lemma_split_join_acc(segs, Seq::empty());
    assert(Seq::<char>::empty() + segs[0] =~= segs[0]);
    assert(seq![segs[0]] + segs.skip(1) =~= segs);
}

/// Rewriting a path from `from` to `to` and then the result from `to` back
/// to `from` gives the path again: the second rewrite always applies.
pub proof fn lemma_rewrite_prefix_undone(p: Seq<Seq<char>>, from: Seq<Seq<char>>, to: Seq<Seq<char>>)
    requires
        from.is_prefix_of(p),
    ensures
        to.is_prefix_of(to + p.skip(from.len() as int)),
        from + (to + p.skip(from.len() as int)).skip(to.len() as int) == p,
{
    let q = to + p.skip(from.len() as int);
    assert(q.subrange(0, to.len() as int) =~= to);
    assert(q.skip(to.len() as int) =~= p.skip(from.len() as int));
    assert(p.subrange(0, from.len() as int) =~= from);
    assert(from + p.skip(from.len() as int) =~= p);
}

} // verus!
