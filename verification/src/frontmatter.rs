//! YAML front matter collected key by key and written out in the order the keys came.
use vstd::prelude::*;
use crate::text::{eq, from_chars, push_all, push_str, to_chars};
use crate::util::{spec_yaml_str, yaml_str_chars};

verus! {

/// A front-matter value: a string or a list of strings.
pub enum FmVal {
    Str(String),
    List(Vec<String>),
}

/// The mathematical form of a front-matter value.
pub enum SFm {
    Str(Seq<char>),
    List(Seq<Seq<char>>),
}

pub open spec fn strings_view(v: Seq<String>) -> Seq<Seq<char>> {
    v.map_values(|s: String| s@)
}

impl View for FmVal {
    type V = SFm;

    open spec fn view(&self) -> SFm {
        match self {
            FmVal::Str(s) => SFm::Str(s@),
            FmVal::List(l) => SFm::List(strings_view(l@)),
        }
    }
}

/// One key and its value.
struct FmEntry {
    key: String,
    val: FmVal,
}

/// Front matter under construction: each key once, in the order it was first set.
pub struct FrontmatterBuilder {
    entries: Vec<FmEntry>,
}

pub open spec fn fm_index_from(d: Seq<(Seq<char>, SFm)>, k: Seq<char>, i: int) -> Option<int>
    decreases d.len() - i,
{
    if i < 0 || i >= d.len() {
        None
    } else if d[i].0 == k {
        Some(i)
    } else {
        fm_index_from(d, k, i + 1)
    }
}

/// Where key `k` stands.
pub open spec fn fm_index(d: Seq<(Seq<char>, SFm)>, k: Seq<char>) -> Option<int> {
    fm_index_from(d, k, 0)
}

/// `d` with `k` set to `v`: in its place if it is there, at the end if not.
pub open spec fn fm_set(d: Seq<(Seq<char>, SFm)>, k: Seq<char>, v: SFm) -> Seq<(Seq<char>, SFm)> {
    match fm_index(d, k) {
        Some(i) => d.update(i, (k, v)),
        None => d.push((k, v)),
    }
}

/// `d` with `x` added to the list under `k`; a string under `k`, or no value, gives way
/// to the one-item list `[x]`.
pub open spec fn fm_push(d: Seq<(Seq<char>, SFm)>, k: Seq<char>, x: Seq<char>) -> Seq<(Seq<char>, SFm)> {
    match fm_index(d, k) {
        Some(i) => match d[i].1 {
            SFm::List(l) => d.update(i, (k, SFm::List(l.push(x)))),
            SFm::Str(_) => d.update(i, (k, SFm::List(seq![x]))),
        },
        None => d.push((k, SFm::List(seq![x]))),
    }
}

/// The YAML lines of one entry: `key: value` (the value quoted where YAML needs it,
/// except for `abbrlink`), or `key:` followed by one `  - item` line per item.
pub open spec fn fm_entry_text(k: Seq<char>, v: SFm) -> Seq<char> {
    match v {
        SFm::Str(s) => k + ": "@ + (if k == "abbrlink"@ {
            s
        } else {
            spec_yaml_str(s)
        }) + "\n"@,
        SFm::List(items) => k + ":\n"@ + fm_items_text(items),
    }
}

pub open spec fn fm_items_text(items: Seq<Seq<char>>) -> Seq<char>
    decreases items.len(),
{
    if items.len() == 0 {
        Seq::empty()
    } else {
        fm_items_text(items.drop_last()) + "  - "@ + items.last() + "\n"@
    }
}

pub open spec fn fm_entries_text(d: Seq<(Seq<char>, SFm)>) -> Seq<char>
    decreases d.len(),
{
    if d.len() == 0 {
        Seq::empty()
    } else {
        fm_entries_text(d.drop_last()) + fm_entry_text(d.last().0, d.last().1)
    }
}

/// The whole front matter: `---`, the entries, `---` and a blank line.
pub open spec fn spec_fm_build(d: Seq<(Seq<char>, SFm)>) -> Seq<char> {
    "---\n"@ + fm_entries_text(d) + "---\n\n"@
}

pub proof fn lemma_fm_index_from(d: Seq<(Seq<char>, SFm)>, k: Seq<char>, i: int)
    requires
        0 <= i,
    ensures
        fm_index_from(d, k, i) matches Some(j) ==> i <= j < d.len() && d[j].0 == k,
        fm_index_from(d, k, i) is None ==> forall|j: int| i <= j < d.len() ==> d[j].0 != k,
    decreases d.len() - i,
{
    if i < d.len() && d[i].0 != k {
        lemma_fm_index_from(d, k, i + 1);
    }
}

/// Every key occurs once.
pub open spec fn fm_keys_unique(d: Seq<(Seq<char>, SFm)>) -> bool {
    forall|i: int, j: int| 0 <= i < j < d.len() ==> d[i].0 != d[j].0
}

/// The builder never holds a key twice: setting a value, or adding to a list, keeps every
/// key once, and the key touched is there afterwards.
pub proof fn law_front_matter_keys_unique(d: Seq<(Seq<char>, SFm)>, k: Seq<char>, v: SFm, x: Seq<char>)
    requires
        fm_keys_unique(d),
    ensures
        fm_keys_unique(fm_set(d, k, v)),
        fm_keys_unique(fm_push(d, k, x)),
        fm_index(fm_set(d, k, v), k) is Some,
        fm_index(fm_push(d, k, x), k) is Some,
{
    lemma_fm_index_from(d, k, 0);
    let s = fm_set(d, k, v);
    let p = fm_push(d, k, x);
    assert forall|i: int| 0 <= i < d.len() implies #[trigger] s[i].0 == d[i].0 && p[i].0 == d[i].0 by {}
    lemma_fm_index_from(s, k, 0);
    lemma_fm_index_from(p, k, 0);
    match fm_index(d, k) {
        Some(i) => {
            assert(s[i].0 == k);
            assert(p[i].0 == k);
        },
        None => {
            assert(s[d.len() as int].0 == k);
            assert(p[d.len() as int].0 == k);
        },
    }
}

/// One call on the builder: `set_str` or `set_list` (a value set), or `push_list`.
pub enum FmOp {
    SetValue(Seq<char>, SFm),
    PushItem(Seq<char>, Seq<char>),
}

pub open spec fn fm_op_key(o: FmOp) -> Seq<char> {
    match o {
        FmOp::SetValue(k, _) => k,
        FmOp::PushItem(k, _) => k,
    }
}

pub open spec fn fm_apply(d: Seq<(Seq<char>, SFm)>, o: FmOp) -> Seq<(Seq<char>, SFm)> {
    match o {
        FmOp::SetValue(k, v) => fm_set(d, k, v),
        FmOp::PushItem(k, x) => fm_push(d, k, x),
    }
}

/// The entries a new builder holds after the calls `ops`, in order.
pub open spec fn fm_run(ops: Seq<FmOp>) -> Seq<(Seq<char>, SFm)>
    decreases ops.len(),
{
    if ops.len() == 0 {
        Seq::empty()
    } else {
        fm_apply(fm_run(ops.drop_last()), ops.last())
    }
}

/// The distinct keys of `ops`, in the order of their first call.
pub open spec fn fm_key_order(ops: Seq<FmOp>) -> Seq<Seq<char>>
    decreases ops.len(),
{
    if ops.len() == 0 {
        Seq::empty()
    } else {
        let ks = fm_key_order(ops.drop_last());
        if ks.contains(fm_op_key(ops.last())) {
            ks
        } else {
            ks.push(fm_op_key(ops.last()))
        }
    }
}

/// What the calls `ops` leave under `k`: the last value set, with the items pushed after
/// it onto a list (a push onto a string or onto nothing starts a new list).
pub open spec fn fm_final(ops: Seq<FmOp>, k: Seq<char>) -> Option<SFm>
    decreases ops.len(),
{
    if ops.len() == 0 {
        None
    } else {
        let prev = fm_final(ops.drop_last(), k);
        if fm_op_key(ops.last()) != k {
            prev
        } else {
            match ops.last() {
                FmOp::SetValue(_, v) => Some(v),
                FmOp::PushItem(_, x) => match prev {
                    Some(SFm::List(l)) => Some(SFm::List(l.push(x))),
                    _ => Some(SFm::List(seq![x])),
                },
            }
        }
    }
}

/// The entries that the calls `ops` leave: each key once, in the order of its first call,
/// with what the calls leave under it.
pub open spec fn fm_expected(ops: Seq<FmOp>) -> Seq<(Seq<char>, SFm)> {
    fm_key_order(ops).map_values(|k: Seq<char>| (k, fm_final(ops, k)->0))
}

proof fn lemma_fm_run(ops: Seq<FmOp>)
    ensures
        fm_run(ops) == fm_expected(ops),
        fm_keys_unique(fm_run(ops)),
        forall|k: Seq<char>| fm_key_order(ops).contains(k) <==> #[trigger] fm_final(ops, k) is Some,
    decreases ops.len(),
{
    if ops.len() > 0 {
        let p = ops.drop_last();
        let o = ops.last();
        let k = fm_op_key(o);
        lemma_fm_run(p);
        let d = fm_run(p);
        let ks = fm_key_order(p);
        lemma_fm_index_from(d, k, 0);
        assert forall|k2: Seq<char>| k2 != k implies #[trigger] fm_final(ops, k2) == fm_final(p, k2) by {}
        if ks.contains(k) {
            let i = choose|i: int| 0 <= i < ks.len() && ks[i] == k;
            assert(d[i].0 == k);
            let j = fm_index(d, k)->0;
            assert(fm_index(d, k) == Some(i)) by {
                if fm_index(d, k) is None {
                    assert(d[i].0 != k);
                }
                if j != i {
                    assert(d[j].0 == d[i].0);
                }
            }
            assert(fm_final(p, k) is Some);
            assert(d[i].1 == fm_final(p, k)->0);
            assert(fm_key_order(ops) == ks);
            assert(fm_run(ops) =~= fm_expected(ops));
            assert forall|k2: Seq<char>| fm_key_order(ops).contains(k2) <==> #[trigger] fm_final(ops, k2) is Some by {
                if k2 != k {
                    assert(fm_final(ops, k2) == fm_final(p, k2));
                }
            }
        } else {
            assert(fm_final(p, k) is None);
            assert forall|j: int| 0 <= j < d.len() implies d[j].0 != k by {
                assert(d[j].0 == ks[j]);
            }
            assert(fm_index(d, k) is None);
            let ks2 = ks.push(k);
            assert(fm_key_order(ops) == ks2);
            assert(fm_run(ops) =~= fm_expected(ops)) by {
                assert forall|j: int| 0 <= j < ks.len() implies #[trigger] fm_expected(ops)[j] == fm_run(ops)[j] by {
                    assert(ks2[j] == ks[j]);
                    assert(ks[j] != k);
                    assert(fm_final(ops, ks[j]) == fm_final(p, ks[j]));
                }
            }
            assert forall|k2: Seq<char>| fm_key_order(ops).contains(k2) <==> #[trigger] fm_final(ops, k2) is Some by {
                if k2 != k {
                    assert(fm_final(ops, k2) == fm_final(p, k2));
                    if ks2.contains(k2) {
                        let m = choose|m: int| 0 <= m < ks2.len() && ks2[m] == k2;
                        assert(m < ks.len());
                        assert(ks.contains(k2));
                    }
                    if ks.contains(k2) {
                        let m = choose|m: int| 0 <= m < ks.len() && ks[m] == k2;
                        assert(ks2[m] == k2);
                    }
                } else {
                    assert(ks2[ks.len() as int] == k);
                }
            }
        }
        law_front_matter_keys_unique(d, k, match o {
            FmOp::SetValue(_, v) => v,
            FmOp::PushItem(_, _) => SFm::Str(Seq::empty()),
        }, match o {
            FmOp::SetValue(_, _) => Seq::empty(),
            FmOp::PushItem(_, x) => x,
        });
    } else {
        assert(fm_run(ops) =~= fm_expected(ops));
    }
}

/// What a builder writes after any sequence of calls on a new one: `---`, then each key
/// once, in the order of its first call, with what the calls leave under it (a string
/// `key: value`, a list `key:` and its `  - item` lines), then `---` and a blank line.
pub proof fn law_front_matter_build(ops: Seq<FmOp>)
    ensures
        fm_run(ops) == fm_expected(ops),
        fm_keys_unique(fm_run(ops)),
        spec_fm_build(fm_run(ops)) == "---\n"@ + fm_entries_text(fm_expected(ops)) + "---\n\n"@,
        forall|k: Seq<char>| fm_key_order(ops).contains(k) <==> #[trigger] fm_final(ops, k) is Some,
{
    lemma_fm_run(ops);
}

impl View for FrontmatterBuilder {
    type V = Seq<(Seq<char>, SFm)>;

    closed spec fn view(&self) -> Seq<(Seq<char>, SFm)> {
        self.entries@.map_values(|e: FmEntry| (e.key@, e.val@))
    }
}

/// A copy of a list of strings.
fn copy_strings(v: &Vec<String>) -> (r: Vec<String>)
    ensures
        strings_view(r@) == strings_view(v@),
{
    let mut out: Vec<String> = Vec::new();
    let mut i: usize = 0;
    while i < v.len()
        invariant
            i <= v@.len(),
            out@.len() == i,
            strings_view(out@) == strings_view(v@.subrange(0, i as int)),
        decreases v.len() - i,
    {
        let c = copy_str(&v[i]);
        let ghost before = out@;
        out.push(c);
        assert forall|k: int| 0 <= k < out@.len() implies #[trigger] strings_view(out@)[k] == strings_view(v@.subrange(0, i + 1))[k] by {
            if k < i {
                assert(out@[k] == before[k]);
                assert(strings_view(before)[k] == strings_view(v@.subrange(0, i as int))[k]);
            }
        }
        assert(strings_view(out@) =~= strings_view(v@.subrange(0, i + 1)));
        i += 1;
    }
    assert(v@.subrange(0, v@.len() as int) =~= v@);
    out
}

fn copy_str(s: &String) -> (r: String)
    ensures
        r@ == s@,
{
    from_chars(&to_chars(s.as_str()))
}

impl FrontmatterBuilder {
    pub fn new() -> (r: FrontmatterBuilder)
        ensures
            r@ == Seq::<(Seq<char>, SFm)>::empty(),
    {
        let r = FrontmatterBuilder { entries: Vec::new() };
        assert(r@ =~= Seq::<(Seq<char>, SFm)>::empty());
        r
    }

    /// Where `key` stands among the entries.
    fn find(&self, key: &str) -> (r: Option<usize>)
        ensures
            r matches Some(i) ==> fm_index(self@, key@) == Some(i as int) && i < self@.len(),
            r is None ==> fm_index(self@, key@) is None,
    {
        let kc = to_chars(key);
        let mut i: usize = 0;
        while i < self.entries.len()
            invariant
                i <= self.entries@.len(),
                kc@ == key@,
                fm_index(self@, key@) == fm_index_from(self@, key@, i as int),
            decreases self.entries.len() - i,
        {
            assert(self@[i as int].0 == self.entries@[i as int].key@);
            if eq(&to_chars(self.entries[i].key.as_str()), &kc) {
                return Some(i);
            }
            i += 1;
        }
        None
    }

    /// Sets `key` to the string `val`.
    pub fn set_str(&mut self, key: &str, val: String)
        ensures
            final(self)@ == fm_set(old(self)@, key@, SFm::Str(val@)),
    {
        self.set(key, FmVal::Str(val));
    }

    /// Sets `key` to the list `vals`.
    pub fn set_list(&mut self, key: &str, vals: Vec<String>)
        ensures
            final(self)@ == fm_set(old(self)@, key@, SFm::List(strings_view(vals@))),
    {
        self.set(key, FmVal::List(vals));
    }

    fn set(&mut self, key: &str, v: FmVal)
        ensures
            final(self)@ == fm_set(old(self)@, key@, v@),
    {
        let entry = FmEntry { key: from_chars(&to_chars(key)), val: v };
        match self.find(key) {
            Some(i) => {
                let ghost before = self@;
                self.entries.set(i, entry);
                assert(self@ =~= before.update(i as int, (key@, v@)));
            },
            None => {
                let ghost before = self@;
                self.entries.push(entry);
                assert(self@ =~= before.push((key@, v@)));
            },
        }
    }

    /// Adds `val` to the list under `key`, starting the list where there is none.
    pub fn push_list(&mut self, key: &str, val: String)
        ensures
            final(self)@ == fm_push(old(self)@, key@, val@),
    {
        let ghost xv = val@;
        match self.find(key) {
            Some(i) => {
                let ghost before = self@;
                let items = match &self.entries[i].val {
                    FmVal::List(l) => {
                        let mut c = copy_strings(l);
                        c.push(val);
                        assert(strings_view(c@) =~= strings_view(l@).push(xv));
                        c
                    },
                    FmVal::Str(_) => {
                        let mut c: Vec<String> = Vec::new();
                        c.push(val);
                        assert(strings_view(c@) =~= seq![xv]);
                        c
                    },
                };
                let entry = FmEntry { key: from_chars(&to_chars(key)), val: FmVal::List(items) };
                self.entries.set(i, entry);
                assert(self@ =~= fm_push(before, key@, xv));
            },
            None => {
                let ghost before = self@;
                let mut c: Vec<String> = Vec::new();
                c.push(val);
                assert(strings_view(c@) =~= seq![xv]);
                self.entries.push(FmEntry { key: from_chars(&to_chars(key)), val: FmVal::List(c) });
                assert(self@ =~= before.push((key@, SFm::List(seq![xv]))));
            },
        }
    }

    /// Writes the front matter out as YAML between `---` lines.
    pub fn build(&self) -> (r: String)
        ensures
            r@ == spec_fm_build(self@),
    {
        let mut out = to_chars("---\n");
        let ghost start = out@;
        let mut i: usize = 0;
        while i < self.entries.len()
            invariant
                i <= self.entries@.len(),
                start == "---\n"@,
                out@ == start + fm_entries_text(self@.subrange(0, i as int)),
            decreases self.entries.len() - i,
        {
            let e = &self.entries[i];
            let ghost before = out@;
            let key = to_chars(e.key.as_str());
            push_all(&mut out, &key);
            match &e.val {
                FmVal::Str(v) => {
                    push_str(&mut out, ": ");
                    if crate::text::eq_str(&key, "abbrlink") {
                        push_all(&mut out, &to_chars(v.as_str()));
                    } else {
                        push_all(&mut out, &yaml_str_chars(&to_chars(v.as_str())));
                    }
                    push_str(&mut out, "\n");
                },
                FmVal::List(items) => {
                    push_str(&mut out, ":\n");
                    let ghost mid = out@;
                    let mut j: usize = 0;
                    while j < items.len()
                        invariant
                            j <= items@.len(),
                            out@ == mid + fm_items_text(strings_view(items@).subrange(0, j as int)),
                        decreases items.len() - j,
                    {
                        push_str(&mut out, "  - ");
                        push_all(&mut out, &to_chars(items[j].as_str()));
                        push_str(&mut out, "\n");
                        proof {
                            let sv = strings_view(items@);
                            assert(sv.subrange(0, j + 1).drop_last() =~= sv.subrange(0, j as int));
                        }
                        j += 1;
                    }
                    assert(strings_view(items@).subrange(0, items@.len() as int) =~= strings_view(items@));
                },
            }
            proof {
                let d = self@;
                assert(d.subrange(0, i + 1).drop_last() =~= d.subrange(0, i as int));
                assert(d[i as int] == (e.key@, e.val@));
                assert(out@ =~= before + fm_entry_text(e.key@, e.val@));
            }
            i += 1;
        }
        assert(self@.subrange(0, self@.len() as int) =~= self@);
        push_str(&mut out, "---\n\n");
        from_chars(&out)
    }
}

} // verus!
