//! Nodes of the syntax tree and the data attached to them.
use vstd::prelude::*;
use super::Position;
use crate::text::{to_chars, from_chars};

verus! {

/// A value attached to a node under a key; the JSON value kinds the converters use.
pub enum DataValue {
    Null,
    Bool(bool),
    UInt(u64),
    Int(i64),
    /// A number that is not a 64-bit integer, as its decimal text.
    Real(String),
    Str(String),
    List(Vec<DataValue>),
    Object(Vec<DataEntry>),
}

/// One key of a node's data and its value.
pub struct DataEntry {
    pub key: String,
    pub value: DataValue,
}

/// A node of the tree: its type, its children, a textual value, where it came
/// from, and data by key (kept in insertion order; a key occurs once).
pub struct AstNode {
    pub node_type: String,
    pub children: Option<Vec<AstNode>>,
    pub value: Option<String>,
    pub position: Option<Position>,
    pub data: Vec<DataEntry>,
}

/// The mathematical form of a data value.
pub enum SValue {
    Null,
    Bool(bool),
    UInt(u64),
    Int(i64),
    Real(Seq<char>),
    Str(Seq<char>),
    List(Seq<SValue>),
    Object(Seq<(Seq<char>, SValue)>),
}

/// The mathematical form of a node.
pub struct SNode {
    pub kind: Seq<char>,
    pub children: Option<Seq<SNode>>,
    pub value: Option<Seq<char>>,
    pub position: Option<Position>,
    pub data: Seq<(Seq<char>, SValue)>,
}

pub open spec fn value_view(v: DataValue) -> SValue
    decreases v, 1nat,
{
    match v {
        DataValue::Null => SValue::Null,
        DataValue::Bool(b) => SValue::Bool(b),
        DataValue::UInt(n) => SValue::UInt(n),
        DataValue::Int(n) => SValue::Int(n),
        DataValue::Real(t) => SValue::Real(t@),
        DataValue::Str(s) => SValue::Str(s@),
        DataValue::List(l) => SValue::List(values_view(l@)),
        DataValue::Object(m) => SValue::Object(entries_view(m@)),
    }
}

pub open spec fn values_view(s: Seq<DataValue>) -> Seq<SValue>
    decreases s, 0nat,
{
    if s.len() == 0 {
        Seq::empty()
    } else {
        values_view(s.drop_last()).push(value_view(s[s.len() - 1]))
    }
}

pub open spec fn entries_view(s: Seq<DataEntry>) -> Seq<(Seq<char>, SValue)>
    decreases s, 0nat,
{
    if s.len() == 0 {
        Seq::empty()
    } else {
        entries_view(s.drop_last()).push((s[s.len() - 1].key@, value_view(s[s.len() - 1].value)))
    }
}

pub open spec fn node_view(n: AstNode) -> SNode
    decreases n, 1nat,
{
    SNode {
        kind: n.node_type@,
        children: match n.children {
            Some(c) => Some(nodes_view(c@)),
            None => None,
        },
        value: match n.value {
            Some(v) => Some(v@),
            None => None,
        },
        position: n.position,
        data: entries_view(n.data@),
    }
}

pub open spec fn nodes_view(s: Seq<AstNode>) -> Seq<SNode>
    decreases s, 0nat,
{
    if s.len() == 0 {
        Seq::empty()
    } else {
        nodes_view(s.drop_last()).push(node_view(s[s.len() - 1]))
    }
}

impl View for AstNode {
    type V = SNode;

    open spec fn view(&self) -> SNode {
        node_view(*self)
    }
}

impl View for DataValue {
    type V = SValue;

    open spec fn view(&self) -> SValue {
        value_view(*self)
    }
}

pub proof fn lemma_nodes_view_push(s: Seq<AstNode>, x: AstNode)
    ensures
        nodes_view(s.push(x)) == nodes_view(s).push(x@),
{
    assert(s.push(x).drop_last() =~= s);
}

pub proof fn lemma_nodes_view_index(s: Seq<AstNode>)
    ensures
        nodes_view(s).len() == s.len(),
        forall|i: int| 0 <= i < s.len() ==> #[trigger] nodes_view(s)[i] == s[i]@,
    decreases s.len(),
{
    if s.len() > 0 {
        lemma_nodes_view_index(s.drop_last());
    }
}

pub proof fn lemma_nodes_view_append(a: Seq<AstNode>, b: Seq<AstNode>)
    ensures
        nodes_view(a + b) == nodes_view(a) + nodes_view(b),
    decreases b.len(),
{
    if b.len() == 0 {
        assert(a + b =~= a);
        assert(nodes_view(a) + nodes_view(b) =~= nodes_view(a));
    } else {
        lemma_nodes_view_append(a, b.drop_last());
        assert((a + b).drop_last() =~= a + b.drop_last());
        assert(nodes_view(a) + nodes_view(b) =~= (nodes_view(a) + nodes_view(b.drop_last())).push(b[b.len() - 1]@));
    }
}

pub proof fn lemma_values_view_index(s: Seq<DataValue>)
    ensures
        values_view(s).len() == s.len(),
        forall|i: int| 0 <= i < s.len() ==> #[trigger] values_view(s)[i] == s[i]@,
    decreases s.len(),
{
    if s.len() > 0 {
        lemma_values_view_index(s.drop_last());
    }
}

pub proof fn lemma_values_view_push(s: Seq<DataValue>, x: DataValue)
    ensures
        values_view(s.push(x)) == values_view(s).push(x@),
{
    assert(s.push(x).drop_last() =~= s);
}

pub proof fn lemma_entries_view_index(s: Seq<DataEntry>)
    ensures
        entries_view(s).len() == s.len(),
        forall|i: int| 0 <= i < s.len() ==> #[trigger] entries_view(s)[i] == (s[i].key@, value_view(s[i].value)),
    decreases s.len(),
{
    if s.len() > 0 {
        lemma_entries_view_index(s.drop_last());
    }
}

/// The index of the first entry of `d` under key `k`.
pub open spec fn key_index_from(d: Seq<(Seq<char>, SValue)>, k: Seq<char>, i: int) -> Option<int>
    decreases d.len() - i,
{
    if i < 0 || i >= d.len() {
        None
    } else if d[i].0 == k {
        Some(i)
    } else {
        key_index_from(d, k, i + 1)
    }
}

pub open spec fn key_index(d: Seq<(Seq<char>, SValue)>, k: Seq<char>) -> Option<int> {
    key_index_from(d, k, 0)
}

/// The value under `k`.
pub open spec fn lookup(d: Seq<(Seq<char>, SValue)>, k: Seq<char>) -> Option<SValue> {
    match key_index(d, k) {
        Some(i) => Some(d[i].1),
        None => None,
    }
}

/// `d` with `k` mapped to `v`: the entry for `k` is replaced in place, or appended.
pub open spec fn insert(d: Seq<(Seq<char>, SValue)>, k: Seq<char>, v: SValue) -> Seq<(Seq<char>, SValue)> {
    match key_index(d, k) {
        Some(i) => d.update(i, (k, v)),
        None => d.push((k, v)),
    }
}

/// `d` with each entry of `m`, in order, inserted.
pub open spec fn insert_all(d: Seq<(Seq<char>, SValue)>, m: Seq<(Seq<char>, SValue)>) -> Seq<(Seq<char>, SValue)>
    decreases m.len(),
{
    if m.len() == 0 {
        d
    } else {
        insert(insert_all(d, m.drop_last()), m[m.len() - 1].0, m[m.len() - 1].1)
    }
}

pub proof fn lemma_key_index_from(d: Seq<(Seq<char>, SValue)>, k: Seq<char>, i: int)
    requires
        0 <= i,
    ensures
        key_index_from(d, k, i) matches Some(j) ==> i <= j < d.len() && d[j].0 == k
            && forall|m: int| i <= m < j ==> d[m].0 != k,
        key_index_from(d, k, i) is None ==> forall|j: int| i <= j < d.len() ==> d[j].0 != k,
    decreases d.len() - i,
{
    if i < d.len() && d[i].0 != k {
        lemma_key_index_from(d, k, i + 1);
    }
}

impl SNode {
    /// A node of type `kind` with nothing else.
    pub open spec fn empty(kind: Seq<char>) -> SNode {
        SNode { kind, children: None, value: None, position: None, data: Seq::empty() }
    }

    pub open spec fn with_children(self, c: Seq<SNode>) -> SNode {
        SNode { children: Some(c), ..self }
    }

    pub open spec fn with_value(self, v: Seq<char>) -> SNode {
        SNode { value: Some(v), ..self }
    }

    pub open spec fn with_data(self, k: Seq<char>, v: SValue) -> SNode {
        SNode { data: insert(self.data, k, v), ..self }
    }
}

/// The position of key `k` among `data`, compared by content.
pub fn find_key(data: &Vec<DataEntry>, k: &str) -> (r: Option<usize>)
    ensures
        r matches Some(i) ==> key_index(entries_view(data@), k@) == Some(i as int),
        r matches Some(i) ==> i < data@.len() && data@[i as int].key@ == k@,
        r is None ==> key_index(entries_view(data@), k@) is None,
{
    let ghost d = entries_view(data@);
    proof {
        lemma_entries_view_index(data@);
    }
    let kc = to_chars(k);
    let mut i: usize = 0;
    proof {
        lemma_key_index_from(d, k@, 0);
    }
    while i < data.len()
        invariant
            i <= data@.len(),
            d == entries_view(data@),
            d.len() == data@.len(),
            kc@ == k@,
            forall|j: int| 0 <= j < data@.len() ==> #[trigger] d[j] == (data@[j].key@, value_view(data@[j].value)),
            key_index(d, k@) == key_index_from(d, k@, i as int),
        decreases data.len() - i,
    {
        let kk = to_chars(data[i].key.as_str());
        if crate::text::eq(&kk, &kc) {
            return Some(i);
        }
        i += 1;
    }
    None
}

/// Maps `k` to `v` in `data`, replacing the entry for `k` or appending one.
pub fn insert_data(data: &mut Vec<DataEntry>, k: &str, v: DataValue)
    ensures
        entries_view(final(data)@) == insert(entries_view(old(data)@), k@, v@),
{
    proof {
        lemma_entries_view_index(data@);
    }
    let key = from_chars(&to_chars(k));
    match find_key(data, k) {
        Some(i) => {
            let ghost old_d = data@;
            data.set(i, DataEntry { key, value: v });
            proof {
                lemma_entries_view_index(data@);
                lemma_entries_view_index(old_d);
                assert(entries_view(data@) =~= insert(entries_view(old_d), k@, v@));
            }
        },
        None => {
            let ghost old_d = data@;
            data.push(DataEntry { key, value: v });
            assert(data@.drop_last() =~= old_d);
        },
    }
}

/// Every key of `d` occurs once.
pub open spec fn keys_unique(d: Seq<(Seq<char>, SValue)>) -> bool {
    forall|i: int, j: int| 0 <= i < j < d.len() ==> d[i].0 != d[j].0
}

/// The first index at or after `i` whose key is `k` is the one `key_index_from` finds.
proof fn lemma_key_index_first(d: Seq<(Seq<char>, SValue)>, k: Seq<char>, i: int, j: int)
    requires
        0 <= i <= j < d.len(),
        d[j].0 == k,
        forall|m: int| i <= m < j ==> d[m].0 != k,
    ensures
        key_index_from(d, k, i) == Some(j),
    decreases j - i,
{
    if i < j {
        lemma_key_index_first(d, k, i + 1, j);
    }
}

/// Two sequences that agree, position by position, on which keys are `k` agree on
/// where `k` is first found.
proof fn lemma_key_index_congruent(d: Seq<(Seq<char>, SValue)>, e: Seq<(Seq<char>, SValue)>, k: Seq<char>, i: int)
    requires
        0 <= i,
        d.len() == e.len(),
        forall|m: int| 0 <= m < d.len() ==> (d[m].0 == k) == (e[m].0 == k),
    ensures
        key_index_from(d, k, i) == key_index_from(e, k, i),
    decreases d.len() - i,
{
    if i < d.len() {
        lemma_key_index_congruent(d, e, k, i + 1);
    }
}

/// Data read after a write: the key written gives the value written, every other key
/// gives what it gave before, and no key comes to occur twice.
pub proof fn law_data_read_after_write(n: SNode, k: Seq<char>, v: SValue, k2: Seq<char>)
    ensures
        lookup(n.with_data(k, v).data, k) == Some(v),
        k2 != k ==> lookup(n.with_data(k, v).data, k2) == lookup(n.data, k2),
        keys_unique(n.data) ==> keys_unique(n.with_data(k, v).data),
{
    let d = n.data;
    let d2 = n.with_data(k, v).data;
    lemma_key_index_from(d, k, 0);
    lemma_key_index_from(d, k2, 0);
    match key_index(d, k) {
        Some(i) => {
            assert(d2 == d.update(i, (k, v)));
            lemma_key_index_first(d2, k, 0, i);
            assert forall|m: int| 0 <= m < d.len() implies #[trigger] d2[m].0 == d[m].0 by {}
            if k2 != k {
                lemma_key_index_congruent(d, d2, k2, 0);
            }
        },
        None => {
            assert(d2 == d.push((k, v)));
            lemma_key_index_first(d2, k, 0, d.len() as int);
            if k2 != k {
                lemma_key_index_from(d2, k2, 0);
                if let Some(j) = key_index(d, k2) {
                    lemma_key_index_first(d2, k2, 0, j);
                }
            }
        },
    }
}

impl AstNode {
    /// A node of the given type with no children, value, position or data.
    pub fn new(node_type: &str) -> (r: AstNode)
        ensures
            r@ == SNode::empty(node_type@),
    {
        AstNode {
            node_type: from_chars(&to_chars(node_type)),
            children: None,
            value: None,
            position: None,
            data: Vec::new(),
        }
    }

    /// The root node holding `children`.
    pub fn root(children: Vec<AstNode>) -> (r: AstNode)
        ensures
            r@ == SNode::empty("root"@).with_children(nodes_view(children@)),
    {
        AstNode::new("root").with_children(children)
    }

    /// A text node holding `value`.
    pub fn text(value: &str) -> (r: AstNode)
        ensures
            r@ == SNode::empty("text"@).with_value(value@),
    {
        AstNode::new("text").with_value(value)
    }

    pub fn with_children(self, children: Vec<AstNode>) -> (r: AstNode)
        ensures
            r@ == self@.with_children(nodes_view(children@)),
    {
        let mut n = self;
        n.children = Some(children);
        n
    }

    pub fn with_value(self, value: &str) -> (r: AstNode)
        ensures
            r@ == self@.with_value(value@),
    {
        let mut n = self;
        n.value = Some(from_chars(&to_chars(value)));
        n
    }

    /// Sets the data under `key` to `value`.
    pub fn with_data(self, key: &str, value: DataValue) -> (r: AstNode)
        ensures
            r@ == self@.with_data(key@, value@),
    {
        let mut n = self;
        insert_data(&mut n.data, key, value);
        n
    }

    pub fn data_str(self, key: &str, value: &str) -> (r: AstNode)
        ensures
            r@ == self@.with_data(key@, SValue::Str(value@)),
    {
        self.with_data(key, DataValue::Str(from_chars(&to_chars(value))))
    }

    pub fn data_bool(self, key: &str, value: bool) -> (r: AstNode)
        ensures
            r@ == self@.with_data(key@, SValue::Bool(value)),
    {
        self.with_data(key, DataValue::Bool(value))
    }

    pub fn data_num(self, key: &str, value: u64) -> (r: AstNode)
        ensures
            r@ == self@.with_data(key@, SValue::UInt(value)),
    {
        self.with_data(key, DataValue::UInt(value))
    }

    pub fn data_list_val(self, key: &str, values: Vec<DataValue>) -> (r: AstNode)
        ensures
            r@ == self@.with_data(key@, SValue::List(values_view(values@))),
    {
        self.with_data(key, DataValue::List(values))
    }

    /// Inserts every entry of `map`, in order; later entries win.
    pub fn with_data_map(self, map: Vec<DataEntry>) -> (r: AstNode)
        ensures
            r@ == (SNode { data: insert_all(self@.data, entries_view(map@)), ..self@ }),
    {
        let mut n = self;
        let ghost start = n@;
        let ghost m = entries_view(map@);
        proof {
            lemma_entries_view_index(map@);
        }
        let mut i: usize = 0;
        while i < map.len()
            invariant
                i <= map@.len(),
                m == entries_view(map@),
                m.len() == map@.len(),
                forall|j: int| 0 <= j < map@.len() ==> #[trigger] m[j] == (map@[j].key@, value_view(map@[j].value)),
                n@ == (SNode { data: insert_all(start.data, m.take(i as int)), ..start }),
            decreases map.len() - i,
        {
            let v = copy_value(&map[i].value);
            insert_data(&mut n.data, map[i].key.as_str(), v);
            assert(m.take(i + 1).drop_last() =~= m.take(i as int));
            i += 1;
        }
        assert(m.take(map.len() as int) =~= m);
        n
    }
}

/// The string under `k`, when there is one.
pub open spec fn lookup_str(d: Seq<(Seq<char>, SValue)>, k: Seq<char>) -> Option<Seq<char>> {
    match lookup(d, k) {
        Some(SValue::Str(s)) => Some(s),
        _ => None,
    }
}

/// The boolean under `k`, when there is one.
pub open spec fn lookup_bool(d: Seq<(Seq<char>, SValue)>, k: Seq<char>) -> Option<bool> {
    match lookup(d, k) {
        Some(SValue::Bool(b)) => Some(b),
        _ => None,
    }
}

/// The non-negative integer under `k`, when there is one (`Value::as_u64`).
pub open spec fn lookup_num(d: Seq<(Seq<char>, SValue)>, k: Seq<char>) -> Option<u64> {
    match lookup(d, k) {
        Some(SValue::UInt(n)) => Some(n),
        Some(SValue::Int(n)) => if n >= 0 {
            Some(n as u64)
        } else {
            None
        },
        _ => None,
    }
}

/// The list under `k`, when there is one.
pub open spec fn lookup_list(d: Seq<(Seq<char>, SValue)>, k: Seq<char>) -> Option<Seq<SValue>> {
    match lookup(d, k) {
        Some(SValue::List(l)) => Some(l),
        _ => None,
    }
}

/// The object under `k`, when there is one.
pub open spec fn lookup_object(d: Seq<(Seq<char>, SValue)>, k: Seq<char>) -> Option<Seq<(Seq<char>, SValue)>> {
    match lookup(d, k) {
        Some(SValue::Object(m)) => Some(m),
        _ => None,
    }
}

impl AstNode {
    pub fn get_data_str(&self, key: &str) -> (r: Option<&str>)
        ensures
            r matches Some(s) ==> lookup_str(self@.data, key@) == Some(s@),
            r is None ==> lookup_str(self@.data, key@) is None,
    {
        proof {
            lemma_entries_view_index(self.data@);
        }
        match find_key(&self.data, key) {
            Some(i) => match &self.data[i].value {
                DataValue::Str(s) => Some(s.as_str()),
                _ => None,
            },
            None => None,
        }
    }

    pub fn get_data_bool(&self, key: &str) -> (r: Option<bool>)
        ensures
            r == lookup_bool(self@.data, key@),
    {
        proof {
            lemma_entries_view_index(self.data@);
        }
        match find_key(&self.data, key) {
            Some(i) => match &self.data[i].value {
                DataValue::Bool(b) => Some(*b),
                _ => None,
            },
            None => None,
        }
    }

    pub fn get_data_num(&self, key: &str) -> (r: Option<u64>)
        ensures
            r == lookup_num(self@.data, key@),
    {
        proof {
            lemma_entries_view_index(self.data@);
        }
        match find_key(&self.data, key) {
            Some(i) => match &self.data[i].value {
                DataValue::UInt(n) => Some(*n),
                DataValue::Int(n) => if *n >= 0 {
                    Some(*n as u64)
                } else {
                    None
                },
                _ => None,
            },
            None => None,
        }
    }

    pub fn get_data_list(&self, key: &str) -> (r: Option<&Vec<DataValue>>)
        ensures
            r matches Some(l) ==> lookup_list(self@.data, key@) == Some(values_view(l@)),
            r is None ==> lookup_list(self@.data, key@) is None,
    {
        proof {
            lemma_entries_view_index(self.data@);
        }
        match find_key(&self.data, key) {
            Some(i) => match &self.data[i].value {
                DataValue::List(l) => Some(l),
                _ => None,
            },
            None => None,
        }
    }

    pub fn get_data_map(&self, key: &str) -> (r: Option<&Vec<DataEntry>>)
        ensures
            r matches Some(m) ==> lookup_object(self@.data, key@) == Some(entries_view(m@)),
            r is None ==> lookup_object(self@.data, key@) is None,
    {
        proof {
            lemma_entries_view_index(self.data@);
        }
        match find_key(&self.data, key) {
            Some(i) => match &self.data[i].value {
                DataValue::Object(m) => Some(m),
                _ => None,
            },
            None => None,
        }
    }
}

/// A copy of a data value.
pub fn copy_value(v: &DataValue) -> (r: DataValue)
    ensures
        r@ == v@,
    decreases v,
{
    match v {
        DataValue::Null => DataValue::Null,
        DataValue::Bool(b) => DataValue::Bool(*b),
        DataValue::UInt(n) => DataValue::UInt(*n),
        DataValue::Int(n) => DataValue::Int(*n),
        DataValue::Real(t) => DataValue::Real(from_chars(&to_chars(t.as_str()))),
        DataValue::Str(s) => DataValue::Str(from_chars(&to_chars(s.as_str()))),
        DataValue::List(l) => {
            let mut out: Vec<DataValue> = Vec::new();
            let mut i: usize = 0;
            while i < l.len()
                invariant
                    *v == DataValue::List(*l),
                    i <= l@.len(),
                    values_view(out@) == values_view(l@.take(i as int)),
                decreases l.len() - i,
            {
                assert(decreases_to!(*v => (*v)->List_0));
                assert(decreases_to!(*l => l@));
                assert(decreases_to!(l@ => l@[i as int]));
                assert(decreases_to!(*v => l@[i as int]));
                let c = copy_value(&l[i]);
                proof {
                    lemma_values_view_push(out@, c);
                    lemma_values_view_push(l@.take(i as int), l@[i as int]);
                    assert(l@.take(i + 1) =~= l@.take(i as int).push(l@[i as int]));
                }
                out.push(c);
                i += 1;
            }
            assert(l@.take(l.len() as int) =~= l@);
            DataValue::List(out)
        },
        DataValue::Object(m) => {
            let mut out: Vec<DataEntry> = Vec::new();
            let mut i: usize = 0;
            while i < m.len()
                invariant
                    *v == DataValue::Object(*m),
                    i <= m@.len(),
                    entries_view(out@) == entries_view(m@.take(i as int)),
                decreases m.len() - i,
            {
                assert(decreases_to!(*v => (*v)->Object_0));
                assert(decreases_to!(*m => m@));
                assert(decreases_to!(m@ => m@[i as int]));
                assert(decreases_to!(m@[i as int] => m@[i as int].value));
                assert(decreases_to!(*v => m@[i as int].value));
                let c = copy_value(&m[i].value);
                let k = from_chars(&to_chars(m[i].key.as_str()));
                let ghost old_out = out@;
                out.push(DataEntry { key: k, value: c });
                proof {
                    assert(out@.drop_last() =~= old_out);
                    assert(m@.take(i + 1).drop_last() =~= m@.take(i as int));
                }
                i += 1;
            }
            assert(m@.take(m.len() as int) =~= m@);
            DataValue::Object(out)
        },
    }
}

} // verus!
