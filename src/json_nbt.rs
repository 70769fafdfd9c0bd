//! Registry documents: a JSON tree of the library's own, and its conversion to NBT.
use vstd::prelude::*;
use crate::nbt::{entries_model, lemma_entries_model, lemma_tags_model, list_elem_id, same_ids, tag_id, tags_model, NBTTag, NbtValue, NBT};
use crate::types::Identifier;
use crate::packets::Packet;
use crate::varint::{varint_wire, VarInt};
use crate::wire::Serializable;

verus! {

broadcast use vstd::std_specs::vec::axiom_vec_index_decreases;

/// A JSON value. A number is kept as an integer where it is one, else as the IEEE-754 bits
/// of its `f64`.
#[derive(Debug, PartialEq)]
pub enum JsonNode {
    Null,
    Boolean(bool),
    Integer(i64),
    Fraction(u64),
    Text(String),
    Array(Vec<JsonNode>),
    Object(Vec<(String, JsonNode)>),
}

/// The NBT value a JSON value converts to: objects become compounds (keys in order),
/// arrays lists, integers `Int` unless they do not fit one (then `Long`), other numbers
/// `Double`, strings `String`, booleans `Byte`. `null` is the End tag, which carries
/// nothing: a null entry of an object is left out of the compound, an array of nulls only
/// is an empty list, and an array mixing null with other values is a heterogeneous list,
/// which fails (`None`), as does any array whose elements convert to different tag ids. A
/// null on its own converts to no value (`None`).
pub open spec fn json_nbt(j: JsonNode) -> Option<NbtValue>
    decreases j,
{
    match j {
        JsonNode::Null => None,
        JsonNode::Boolean(b) => Some(NbtValue::Byte(if b { 1 } else { 0 })),
        JsonNode::Integer(n) => if i32::MIN <= n < i32::MAX {
            Some(NbtValue::Int(n as i32))
        } else {
            Some(NbtValue::Long(n))
        },
        JsonNode::Fraction(bits) => Some(NbtValue::Double(bits)),
        JsonNode::Text(s) => Some(NbtValue::Str(s@)),
        JsonNode::Array(v) => if all_null(v@) {
            Some(NbtValue::List(Seq::empty()))
        } else {
            match array_nbt(v@) {
                Some(l) => if same_ids(l, list_elem_id(l)) {
                    Some(NbtValue::List(l))
                } else {
                    None
                },
                None => None,
            }
        },
        JsonNode::Object(v) => match object_nbt(v@) {
            Some(c) => Some(NbtValue::Compound(c)),
            None => None,
        },
    }
}

/// Every element is `null`.
pub open spec fn all_null(s: Seq<JsonNode>) -> bool {
    forall|i: int| 0 <= i < s.len() ==> #[trigger] s[i] is Null
}

pub open spec fn array_nbt(s: Seq<JsonNode>) -> Option<Seq<NbtValue>>
    decreases s,
{
    if s.len() == 0 {
        Some(Seq::empty())
    } else {
        match (array_nbt(s.drop_last()), json_nbt(s.last())) {
            (Some(a), Some(b)) => Some(a.push(b)),
            _ => None,
        }
    }
}

pub open spec fn object_nbt(s: Seq<(String, JsonNode)>) -> Option<Seq<(Seq<char>, NbtValue)>>
    decreases s,
{
    if s.len() == 0 {
        Some(Seq::empty())
    } else if s.last().1 is Null {
        object_nbt(s.drop_last())
    } else {
        match (object_nbt(s.drop_last()), json_nbt(s.last().1)) {
            (Some(a), Some(b)) => Some(a.push((s.last().0@, b))),
            _ => None,
        }
    }
}

impl JsonNode {
    /// Converts this value to NBT as `json_nbt` says.
    pub fn to_nbt(&self) -> (r: Option<NBTTag>)
        ensures
            match json_nbt(*self) {
                Some(v) => r matches Some(t) && t.model() == v,
                None => r is None,
            },
        decreases self,
    {
        match self {
            JsonNode::Null => None,
            JsonNode::Boolean(b) => Some(NBTTag::Byte(if *b { 1 } else { 0 })),
            JsonNode::Integer(n) => {
                if i32::MIN as i64 <= *n && *n < i32::MAX as i64 {
                    Some(NBTTag::Int(*n as i32))
                } else {
                    Some(NBTTag::Long(*n))
                }
            },
            JsonNode::Fraction(bits) => Some(NBTTag::Double(*bits)),
            JsonNode::Text(s) => Some(NBTTag::String(s.clone())),
            JsonNode::Array(v) => {
                let mut nulls: usize = 0;
                let mut only_nulls = true;
                while nulls < v.len()
                    invariant
                        nulls <= v@.len(),
                        only_nulls == forall|j: int| 0 <= j < nulls ==> #[trigger] v@[j] is Null,
                    decreases v@.len() - nulls,
                {
                    match &v[nulls] {
                        JsonNode::Null => {},
                        _ => {
                            only_nulls = false;
                        },
                    }
                    nulls = nulls + 1;
                }
                if only_nulls {
                    return Some(NBTTag::List(Vec::new()));
                }
                let mut out: Vec<NBTTag> = Vec::new();
                let mut i: usize = 0;
                proof {
                    assert(decreases_to!(self => v));
                }
                while i < v.len()
                    invariant
                        i <= v@.len(),
                        decreases_to!(self => v),
                        *self == JsonNode::Array(*v),
                        !all_null(v@),
                        array_nbt(v@.take(i as int)) == Some(tags_model(out@)),
                    decreases v@.len() - i,
                {
                    proof {
                        assert(decreases_to!(v => v[i as int]));
                        assert(v@.take(i + 1).drop_last() =~= v@.take(i as int));
                        assert(out@.len() == i) by {
                            lemma_tags_model(out@);
                            lemma_array_len(v@.take(i as int));
                        }
                    }
                    match v[i].to_nbt() {
                        Some(t) => {
                            proof {
                                assert(out@.push(t).drop_last() =~= out@);
                            }
                            out.push(t);
                        },
                        None => {
                            proof {
                                lemma_array_none(v@, i as int);
                            }
                            return None;
                        },
                    }
                    i = i + 1;
                }
                assert(v@.take(v@.len() as int) =~= v@);
                let ghost m = tags_model(out@);
                proof {
                    lemma_tags_model(out@);
                }
                let id: u8 = if out.len() == 0 {
                    0
                } else {
                    out[0].id()
                };
                let mut k: usize = 0;
                while k < out.len()
                    invariant
                        k <= out@.len(),
                        m == tags_model(out@),
                        m.len() == out@.len(),
                        *self == JsonNode::Array(*v),
                        !all_null(v@),
                        array_nbt(v@) == Some(m),
                        id == list_elem_id(m),
                        forall|j: int| 0 <= j < m.len() ==> #[trigger] m[j] == out@[j].model(),
                        forall|j: int| 0 <= j < k ==> tag_id(#[trigger] m[j]) == id,
                    decreases out@.len() - k,
                {
                    if out[k].id() != id {
                        assert(tag_id(m[k as int]) != id);
                        return None;
                    }
                    k = k + 1;
                }
                Some(NBTTag::List(out))
            },
            JsonNode::Object(v) => {
                let mut out: Vec<(String, NBTTag)> = Vec::new();
                let mut i: usize = 0;
                proof {
                    assert(decreases_to!(self => v));
                }
                while i < v.len()
                    invariant
                        i <= v@.len(),
                        decreases_to!(self => v),
                        *self == JsonNode::Object(*v),
                        object_nbt(v@.take(i as int)) == Some(entries_model(out@)),
                    decreases v@.len() - i,
                {
                    proof {
                        assert(decreases_to!(v => v[i as int]));
                        assert(decreases_to!(v[i as int] => v[i as int].1));
                        assert(v@.take(i + 1).drop_last() =~= v@.take(i as int));
                    }
                    let entry = &v[i];
                    if let JsonNode::Null = entry.1 {
                        i = i + 1;
                        continue;
                    }
                    match entry.1.to_nbt() {
                        Some(t) => {
                            let name = entry.0.clone();
                            proof {
                                assert(out@.push((name, t)).drop_last() =~= out@);
                            }
                            out.push((name, t));
                        },
                        None => {
                            proof {
                                lemma_object_none(v@, i as int);
                            }
                            return None;
                        },
                    }
                    i = i + 1;
                }
                assert(v@.take(v@.len() as int) =~= v@);
                Some(NBTTag::Compound(out))
            },
        }
    }
}

pub proof fn lemma_array_len(s: Seq<JsonNode>)
    ensures
        array_nbt(s) matches Some(a) ==> a.len() == s.len(),
    decreases s.len(),
{
    if s.len() > 0 {
        lemma_array_len(s.drop_last());
    }
}

/// Where an element fails to convert, the whole array does.
pub proof fn lemma_array_none(s: Seq<JsonNode>, i: int)
    requires
        0 <= i < s.len(),
        json_nbt(s[i]) is None,
    ensures
        array_nbt(s) is None,
    decreases s.len(),
{
    if i < s.len() - 1 {
        lemma_array_none(s.drop_last(), i);
    }
}

pub proof fn lemma_object_none(s: Seq<(String, JsonNode)>, i: int)
    requires
        0 <= i < s.len(),
        !(s[i].1 is Null),
        json_nbt(s[i].1) is None,
    ensures
        object_nbt(s) is None,
    decreases s.len(),
{
    if i < s.len() - 1 {
        lemma_object_none(s.drop_last(), i);
    }
}

/// `reg` and `entries` are what a registry document gives: the first entry's name parsed
/// as an identifier, and each of its items' names and converted values.
pub open spec fn registry_matches(json: JsonNode, reg: Identifier, entries: Seq<(Identifier, NBT)>) -> bool {
    match json {
        JsonNode::Object(top) => top@.len() > 0 && (reg.namespace@, reg.key@) == crate::types::parse_identifier(
            top@[0].0@,
        ) && match top@[0].1 {
            JsonNode::Object(items) => entries.len() == items@.len() && forall|i: int|
                0 <= i < items@.len() ==> (#[trigger] entries[i].0.namespace@, entries[i].0.key@)
                    == crate::types::parse_identifier(items@[i].0@) && items@[i].1 is Object
                    && json_nbt(items@[i].1) == Some(entries[i].1.root_tag.model()),
            _ => false,
        },
        _ => false,
    }
}

/// A registry document converts: it is an object with at least one entry, the first entry's
/// value is an object, and each item of that object is an object that converts.
pub open spec fn registry_convertible(json: JsonNode) -> bool {
    match json {
        JsonNode::Object(top) => top@.len() > 0 && match top@[0].1 {
            JsonNode::Object(items) => forall|i: int|
                0 <= i < items@.len() ==> (#[trigger] items@[i]).1 is Object && json_nbt(items@[i].1) is Some,
            _ => false,
        },
        _ => false,
    }
}

impl NBT {
    /// A document whose root is the conversion of a JSON object; `None` where `json` is not
    /// an object or does not convert.
    pub fn from_json(json: &JsonNode, network: bool) -> (r: Option<NBT>)
        ensures
            (json is Object && json_nbt(*json) is Some) ==> (r matches Some(doc) && doc.root_tag.model()
                == json_nbt(*json)->0 && (doc.root_name is None <==> network) && (doc.root_name matches Some(n) ==> n@.len() == 0)),
            !(json is Object && json_nbt(*json) is Some) ==> r is None,
    {
        match json {
            JsonNode::Object(_) => match json.to_nbt() {
                Some(t) => {
                    if network {
                        Some(NBT::new_network(t))
                    } else {
                        proof {
                            reveal_strlit("");
                        }
                        Some(NBT::new("", t))
                    }
                },
                None => None,
            },
            _ => None,
        }
    }

    /// Splits a registry document, an object whose first entry maps the registry's name to an
    /// object of entries, into the registry's identifier and each entry's identifier and
    /// document. `None` where the shape differs or an entry does not convert.
    pub fn from_registry(json: &JsonNode, network: bool) -> (r: Option<(Identifier, Vec<(Identifier, NBT)>)>)
        ensures
            r is Some <==> registry_convertible(*json),
            r matches Some((reg, entries)) ==> registry_matches(*json, reg, entries@),
            r matches Some((reg, entries)) ==> forall|i: int|
                0 <= i < entries@.len() ==> ((#[trigger] entries@[i]).1.root_name is None <==> network),
    {
        match json {
            JsonNode::Object(top) => {
                if top.len() == 0 {
                    return None;
                }
                let reg = Identifier::from_text(top[0].0.as_str());
                match &top[0].1 {
                    JsonNode::Object(items) => {
                        let mut out: Vec<(Identifier, NBT)> = Vec::new();
                        let mut i: usize = 0;
                        while i < items.len()
                            invariant
                                i <= items@.len(),
                                *json == JsonNode::Object(*top),
                                top@.len() > 0,
                                top@[0].1 == JsonNode::Object(*items),
                                out@.len() == i,
                                forall|k: int|
                                    0 <= k < i ==> (#[trigger] out@[k].0.namespace@, out@[k].0.key@)
                                        == crate::types::parse_identifier(items@[k].0@) && items@[k].1 is Object
                                        && json_nbt(items@[k].1) == Some(out@[k].1.root_tag.model()),
                                forall|k: int| 0 <= k < i ==> ((#[trigger] out@[k]).1.root_name is None <==> network),
                                forall|k: int| 0 <= k < i ==> (#[trigger] items@[k]).1 is Object && json_nbt(items@[k].1) is Some,
                            decreases items@.len() - i,
                        {
                            let id = Identifier::from_text(items[i].0.as_str());
                            match NBT::from_json(&items[i].1, network) {
                                Some(doc) => {
                                    proof {
                                        assert(items@[i as int].1 is Object);
                                        assert(json_nbt(items@[i as int].1) == Some(doc.root_tag.model()));
                                        assert(doc.root_name is None <==> network);
                                    }
                                    out.push((id, doc));
                                    proof {
                                        assert(out@[i as int].0 == id);
                                    }
                                },
                                None => {
                                    proof {
                                        assert(!((items@[i as int]).1 is Object && json_nbt(items@[i as int].1) is Some));
                                    }
                                    return None;
                                },
                            }
                            i = i + 1;
                        }
                        Some((reg, out))
                    },
                    _ => None,
                }
            },
            _ => None,
        }
    }
}

/// One entry of a registry: its identifier and, where it has one, its network-form NBT
/// document.
#[derive(Debug, Clone, PartialEq, Eq)]
pub struct RegistryEntry {
    pub id: Identifier,
    pub data: Option<Vec<u8>>,
}

impl Serializable for RegistryEntry {
    open spec fn wire(&self) -> Seq<u8> {
        self.id.wire() + match self.data {
            Some(b) => seq![1u8] + b@,
            None => seq![0u8],
        }
    }

    open spec fn encodable(&self) -> bool {
        self.id.encodable()
    }

    fn serialize(&self, out: &mut Vec<u8>) {
        self.id.serialize(out);
        match &self.data {
            Some(b) => {
                out.push(1u8);
                crate::codec::push_all(out, b.as_slice());
            },
            None => out.push(0u8),
        }
        assert(out@ =~= old(out)@ + self.wire());
    }
}

pub open spec fn entries_wire(s: Seq<RegistryEntry>) -> Seq<u8>
    decreases s.len(),
{
    if s.len() == 0 {
        Seq::empty()
    } else {
        entries_wire(s.drop_last()) + s.last().wire()
    }
}

/// Sends one registry to the client during configuration.
#[derive(Debug, Clone, PartialEq, Eq)]
pub struct RegistryData {
    pub registry_id: Identifier,
    pub entries: Vec<RegistryEntry>,
}

impl Packet for RegistryData {
    open spec fn spec_id(&self) -> i32 {
        0x07
    }

    fn id(&self) -> (r: i32) {
        0x07
    }
}

impl Serializable for RegistryData {
    open spec fn wire(&self) -> Seq<u8> {
        self.registry_id.wire() + varint_wire(self.entries@.len() as i32) + entries_wire(self.entries@)
    }

    open spec fn encodable(&self) -> bool {
        self.registry_id.encodable() && self.entries@.len() <= i32::MAX
    }

    fn serialize(&self, out: &mut Vec<u8>) {
        self.registry_id.serialize(out);
        VarInt(#[verifier::truncate] (self.entries.len() as i32)).serialize(out);
        let ghost start = out@;
        let mut i: usize = 0;
        while i < self.entries.len()
            invariant
                i <= self.entries@.len(),
                out@ == start + entries_wire(self.entries@.take(i as int)),
            decreases self.entries@.len() - i,
        {
            self.entries[i].serialize(out);
            proof {
                assert(self.entries@.take(i + 1).drop_last() =~= self.entries@.take(i as int));
            }
            i = i + 1;
        }
        assert(self.entries@.take(self.entries@.len() as int) =~= self.entries@);
        assert(out@ =~= old(out)@ + self.wire());
    }
}

/// The bytes a registry entry carries for a document: the document in network form.
pub open spec fn entry_bytes_of(doc: NBT) -> Seq<u8> {
    crate::nbt::document_bytes(None, doc.root_tag.model())
}

impl RegistryEntry {
    /// The entry's document bytes, where it has them.
    pub open spec fn data_view(&self) -> Option<Seq<u8>> {
        match self.data {
            Some(b) => Some(b@),
            None => None,
        }
    }
}

impl RegistryData {
    /// The registry packet for documents `docs`, each written in network form; `None` where
    /// one of them cannot be written.
    pub fn from_documents(registry_id: Identifier, docs: Vec<(Identifier, NBT)>) -> (r: Option<RegistryData>)
        ensures
            r matches Some(p) ==> p.registry_id == registry_id && p.entries@.len() == docs@.len() && forall|i: int|
                0 <= i < docs@.len() ==> (#[trigger] p.entries@[i]).id == docs@[i].0 && p.entries@[i].data_view()
                    == Some(entry_bytes_of(docs@[i].1)),
            (forall|i: int| 0 <= i < docs@.len() ==> (#[trigger] docs@[i]).1.encodable() && crate::nbt::homogeneous(
                docs@[i].1.root_tag.model(),
            )) ==> r is Some,
    {
        let ghost orig = docs@;
        let mut rest = docs;
        let mut entries: Vec<RegistryEntry> = Vec::new();
        while rest.len() > 0
            invariant
                orig == docs@,
                entries@.len() + rest@.len() == orig.len(),
                rest@ == orig.skip(entries@.len() as int),
                forall|i: int|
                    0 <= i < entries@.len() ==> (#[trigger] entries@[i]).id == orig[i].0 && entries@[i].data_view()
                        == Some(entry_bytes_of(orig[i].1)),
            decreases rest@.len(),
        {
            let (id, mut doc) = rest.remove(0);
            proof {
                assert(orig[entries@.len() as int] == (id, doc));
            }
            if !doc.fits() {
                proof {
                    assert(!orig[entries@.len() as int].1.encodable());
                }
                return None;
            }
            doc.as_network();
            match doc.as_bytes() {
                Ok(b) => {
                    entries.push(RegistryEntry { id, data: Some(b) });
                },
                Err(_) => {
                    proof {
                        assert(!crate::nbt::homogeneous(orig[entries@.len() as int].1.root_tag.model()));
                    }
                    return None;
                },
            }
            proof {
                assert(rest@ =~= orig.skip(entries@.len() as int));
            }
        }
        Some(RegistryData { registry_id, entries })
    }
}

} // verus!
