//! Values and the memory that they refer to: the stores of strings, boxes, lists, structs,
//! functions and custom objects, and the garbage collector that frees what no value reaches.
use compact_str::CompactString;
use vstd::prelude::*;

use crate::bytecode::ByteCode;
use crate::compact::{compact_as_str, compact_chars};
use crate::keep_reachable::{GcKind, KeepReachableSet};
use crate::object_store::{count_with_color, lemma_count_recolor, Color, ObjectStore, ValId, ValWithColor};
use crate::symbol::{Symbol, SymbolInterner};

verus! {

/// The kind of object that a handle to a function names.
#[derive(Debug)]
pub struct FunctionSlot;

/// The kind of object that a handle to a custom value names.
#[derive(Debug)]
pub struct CustomSlot;

/// A list of values.
pub type ListVal = Vec<UnsafeVal>;

/// A function loaded into memory: its bytecode, and for each of its instructions the value it
/// pushes when that is a string, a float, a function or an inlined global (`None` for the
/// others).
#[derive(Debug)]
pub struct Function<'a> {
    pub code: ByteCode<'a>,
    pub consts: Vec<Option<UnsafeVal>>,
}

/// The constants of a function, `void` where an instruction pushes none.
pub open spec fn const_values(consts: Seq<Option<UnsafeVal>>) -> Seq<UnsafeVal> {
    Seq::new(
        consts.len(),
        |i: int|
            match consts[i] {
                Some(v) => v,
                None => UnsafeVal::Void,
            },
    )
}

/// Contains a Spore value. Objects are named by handles into the [`MemoryManager`]; a handle
/// may outlive its object once the garbage collector frees it, hence the name.
#[derive(Debug)]
pub enum UnsafeVal {
    /// A type that contains a single value. Used to represent nothingness.
    Void,
    /// Either true or false.
    Bool(bool),
    /// A 64 bit signed integer.
    Int(i64),
    /// A 64 bit floating point number, by the bits of its IEEE 754 representation.
    Float(u64),
    /// An interned symbol.
    Symbol(Symbol),
    /// A handle to a string.
    String(ValId<CompactString>),
    /// A handle to a box containing a mutable value.
    MutableBox(ValId<UnsafeVal>),
    /// A handle to a list.
    List(ValId<ListVal>),
    /// A handle to a struct.
    Struct(ValId<StructVal>),
    /// A handle to a function implemented in Spore's bytecode.
    ByteCodeFunction(ValId<FunctionSlot>),
    /// A function implemented in Rust, by its number.
    NativeFunction(u32),
    /// A handle to a custom value.
    Custom(ValId<CustomSlot>),
}

impl Clone for UnsafeVal {
    fn clone(&self) -> (r: UnsafeVal)
        ensures
            r == *self,
    {
        *self
    }
}

impl Copy for UnsafeVal {}

impl Default for UnsafeVal {
    fn default() -> (r: UnsafeVal)
        ensures
            r is Void,
    {
        UnsafeVal::Void
    }
}

/// Every value but `void` and `false` is truthy.
pub open spec fn truthy(v: UnsafeVal) -> bool {
    match v {
        UnsafeVal::Void => false,
        UnsafeVal::Bool(b) => b,
        _ => true,
    }
}

/// Only `void` and `false` are falsy: every other value (`true`, every number, symbol, string,
/// list, struct, box and function) is truthy.
pub proof fn lemma_truthy(v: UnsafeVal)
    ensures
        truthy(v) <==> !(v is Void || v == UnsafeVal::Bool(false)),
        v is String || v is List || v is Struct || v is Int || v is Float || v is Symbol ==> truthy(v),
{
}

impl UnsafeVal {
    /// Returns `false` if `self` is `void` or `false`. All other values return `true`.
    pub fn is_truthy(self) -> (r: bool)
        ensures
            r == truthy(self),
            r <==> !(self is Void || self == UnsafeVal::Bool(false)),
    {
        match self {
            UnsafeVal::Void => false,
            UnsafeVal::Bool(b) => b,
            _ => true,
        }
    }
}

/// The stores of the memory manager.
#[derive(Copy, Clone, Debug, PartialEq, Eq, Structural)]
pub enum ObjKind {
    String,
    MutableBox,
    List,
    Struct,
    ByteCode,
    Custom,
}

/// The object that `v` names, by store and slot, when it names one.
pub open spec fn obj_key(v: UnsafeVal) -> Option<(ObjKind, u32)> {
    match v {
        UnsafeVal::String(id) => Some((ObjKind::String, id.idx)),
        UnsafeVal::MutableBox(id) => Some((ObjKind::MutableBox, id.idx)),
        UnsafeVal::List(id) => Some((ObjKind::List, id.idx)),
        UnsafeVal::Struct(id) => Some((ObjKind::Struct, id.idx)),
        UnsafeVal::ByteCodeFunction(id) => Some((ObjKind::ByteCode, id.idx)),
        UnsafeVal::Custom(id) => Some((ObjKind::Custom, id.idx)),
        _ => None,
    }
}

/// Returns `true` if `v` is managed by the garbage collector.
pub fn is_garbage_collected(v: UnsafeVal) -> (r: bool)
    ensures
        r == (obj_key(v) is Some),
{
    match v {
        UnsafeVal::Void => false,
        UnsafeVal::Bool(_) => false,
        UnsafeVal::Int(_) => false,
        UnsafeVal::Float(_) => false,
        UnsafeVal::Symbol(_) => false,
        UnsafeVal::String(_) => true,
        UnsafeVal::MutableBox(_) => true,
        UnsafeVal::List(_) => true,
        UnsafeVal::Struct(_) => true,
        UnsafeVal::ByteCodeFunction(_) => true,
        UnsafeVal::NativeFunction(_) => false,
        UnsafeVal::Custom(_) => true,
    }
}

/// The symbols of `fields`, in order.
pub open spec fn field_names(fields: Seq<(Symbol, UnsafeVal)>) -> Seq<Symbol> {
    Seq::new(fields.len(), |i: int| fields[i].0)
}

/// The values of `fields`, in order.
pub open spec fn field_values(fields: Seq<(Symbol, UnsafeVal)>) -> Seq<UnsafeVal> {
    Seq::new(fields.len(), |i: int| fields[i].1)
}

/// The value of each name of `fields`; a later field of a name wins.
pub open spec fn fields_map(fields: Seq<(Symbol, UnsafeVal)>) -> Map<Symbol, UnsafeVal>
    decreases fields.len(),
{
    if fields.len() == 0 {
        Map::empty()
    } else {
        fields_map(fields.drop_last()).insert(fields.last().0, fields.last().1)
    }
}

pub proof fn lemma_fields_map_dom(fields: Seq<(Symbol, UnsafeVal)>, sym: Symbol)
    ensures
        fields_map(fields).contains_key(sym) <==> field_names(fields).contains(sym),
    decreases fields.len(),
{
    if fields.len() > 0 {
        lemma_fields_map_dom(fields.drop_last(), sym);
        let names = field_names(fields);
        let init = field_names(fields.drop_last());
        assert(init =~= names.drop_last());
        if names.contains(sym) && sym != fields.last().0 {
            let k = choose|k: int| 0 <= k < names.len() && names[k] == sym;
            assert(k < names.len() - 1);
            assert(init[k] == sym);
        }
        if init.contains(sym) {
            let k = choose|k: int| 0 <= k < init.len() && init[k] == sym;
            assert(names[k] == sym);
        }
        if sym == fields.last().0 {
            assert(names[names.len() - 1] == sym);
        }
    }
}

pub proof fn lemma_fields_map_index(fields: Seq<(Symbol, UnsafeVal)>, i: int)
    requires
        field_names(fields).no_duplicates(),
        0 <= i < fields.len(),
    ensures
        fields_map(fields).contains_key(fields[i].0),
        fields_map(fields)[fields[i].0] == fields[i].1,
    decreases fields.len(),
{
    let names = field_names(fields);
    if i < fields.len() - 1 {
        let init = fields.drop_last();
        assert(field_names(init) =~= names.drop_last());
        assert(init[i] == fields[i]);
        lemma_fields_map_index(init, i);
        assert(names[i] != names[fields.len() - 1]);
    }
}

proof fn lemma_fields_map_update(fields: Seq<(Symbol, UnsafeVal)>, i: int, v: UnsafeVal)
    requires
        field_names(fields).no_duplicates(),
        0 <= i < fields.len(),
    ensures
        fields_map(fields.update(i, (fields[i].0, v))) == fields_map(fields).insert(fields[i].0, v),
    decreases fields.len(),
{
    let names = field_names(fields);
    let u = fields.update(i, (fields[i].0, v));
    if i == fields.len() - 1 {
        assert(u.drop_last() =~= fields.drop_last());
        let init = field_names(fields.drop_last());
        assert(init =~= names.drop_last());
        assert(!init.contains(fields[i].0)) by {
            if init.contains(fields[i].0) {
                let k = choose|k: int| 0 <= k < init.len() && init[k] == fields[i].0;
                assert(names[k] == names[i]);
            }
        }
        lemma_fields_map_dom(fields.drop_last(), fields[i].0);
        assert(fields_map(u) =~= fields_map(fields).insert(fields[i].0, v));
    } else {
        let init = fields.drop_last();
        assert(field_names(init) =~= names.drop_last());
        assert(u.drop_last() =~= init.update(i, (fields[i].0, v)));
        assert(init[i] == fields[i]);
        lemma_fields_map_update(init, i, v);
        assert(names[i] != names[fields.len() - 1]);
        assert(u.last() == fields.last());
        assert(fields_map(u) =~= fields_map(fields).insert(fields[i].0, v));
    }
}

/// A container for a struct. A struct is a map from name to value.
#[derive(Debug)]
pub struct StructVal {
    fields: Vec<(Symbol, UnsafeVal)>,
}

impl StructVal {
    /// The fields, in the order they were first set.
    pub closed spec fn fields(&self) -> Seq<(Symbol, UnsafeVal)> {
        self.fields@
    }

    /// The value of each name.
    pub open spec fn view_map(&self) -> Map<Symbol, UnsafeVal> {
        fields_map(self.fields())
    }

    /// No name is set twice.
    pub open spec fn wf(&self) -> bool {
        field_names(self.fields()).no_duplicates()
    }

    /// Create a new `StructVal`.
    pub fn new() -> (r: StructVal)
        ensures
            r.wf(),
            r.fields().len() == 0,
    {
        StructVal::with_capacity(0)
    }

    /// Create a new `StructVal` with capacity for `cap` amount of fields.
    pub fn with_capacity(cap: usize) -> (r: StructVal)
        ensures
            r.wf(),
            r.fields().len() == 0,
    {
        let r = StructVal { fields: Vec::with_capacity(cap) };
        assert(field_names(r.fields()) =~= Seq::<Symbol>::empty());
        r
    }

    /// Get the number of fields.
    pub fn len(&self) -> (r: usize)
        ensures
            r == self.fields().len(),
    {
        self.fields.len()
    }

    /// Returns `true` if the struct is empty.
    pub fn is_empty(&self) -> (r: bool)
        ensures
            r == (self.fields().len() == 0),
    {
        self.fields.len() == 0
    }

    /// The position of the field `symbol`.
    fn position(&self, symbol: Symbol) -> (r: Option<usize>)
        requires
            self.wf(),
        ensures
            match r {
                Some(i) => i < self.fields().len() && self.fields()[i as int].0 == symbol,
                None => !field_names(self.fields()).contains(symbol),
            },
    {
        let mut i: usize = 0;
        while i < self.fields.len()
            invariant
                i <= self.fields@.len(),
                forall|k: int| 0 <= k < i ==> self.fields@[k].0 != symbol,
            decreases self.fields@.len() - i,
        {
            if self.fields[i].0 == symbol {
                return Some(i);
            }
            i = i + 1;
        }
        proof {
            if field_names(self.fields()).contains(symbol) {
                let k = choose|k: int|
                    0 <= k < field_names(self.fields()).len() && field_names(self.fields())[k]
                        == symbol;
                assert(self.fields@[k].0 == symbol);
            }
        }
        None
    }

    /// Set the value of `symbol` to `value`: a name already set keeps its place, a new name
    /// goes last.
    pub fn set(&mut self, symbol: Symbol, value: UnsafeVal)
        requires
            old(self).wf(),
        ensures
            final(self).wf(),
            final(self).view_map() == old(self).view_map().insert(symbol, value),
            field_names(old(self).fields()).contains(symbol) ==> field_names(final(self).fields())
                == field_names(old(self).fields()),
            !field_names(old(self).fields()).contains(symbol) ==> field_names(
                final(self).fields(),
            ) == field_names(old(self).fields()).push(symbol),
    {
        let ghost before = self.fields@;
        match self.position(symbol) {
            Some(i) => {
                self.fields[i] = (symbol, value);
                proof {
                    assert(self.fields@ == before.update(i as int, (before[i as int].0, value)));
                    lemma_fields_map_update(before, i as int, value);
                    assert(field_names(self.fields@) =~= field_names(before));
                    assert(field_names(before)[i as int] == symbol);
                }
            },
            None => {
                self.fields.push((symbol, value));
                proof {
                    let names = field_names(before);
                    let after = field_names(self.fields@);
                    assert(after =~= names.push(symbol));
                    assert(self.fields@.drop_last() =~= before);
                    assert(after.no_duplicates()) by {
                        assert forall|a: int, b: int| 0 <= a < after.len() && 0 <= b < after.len() && a != b implies after[a] != after[b] by {
                            if a < names.len() && b < names.len() {
                                assert(names[a] != names[b]);
                            } else if a == names.len() {
                                assert(names.contains(names[b]));
                            } else {
                                assert(names.contains(names[a]));
                            }
                        }
                    }
                }
            },
        }
    }

    /// Get the value of `symbol` or `None` if the value does not exist.
    pub fn get(&self, symbol: Symbol) -> (r: Option<UnsafeVal>)
        requires
            self.wf(),
        ensures
            match r {
                Some(v) => self.view_map().contains_key(symbol) && self.view_map()[symbol] == v,
                None => !self.view_map().contains_key(symbol),
            },
    {
        match self.position(symbol) {
            Some(i) => {
                proof {
                    lemma_fields_map_index(self.fields(), i as int);
                }
                Some(self.fields[i].1)
            },
            None => {
                proof {
                    lemma_fields_map_dom(self.fields(), symbol);
                }
                None
            },
        }
    }

    /// All symbols and values within `self`, in the order they were first set.
    pub fn iter(&self) -> (r: Vec<(Symbol, UnsafeVal)>)
        ensures
            r@ == self.fields(),
    {
        let mut r: Vec<(Symbol, UnsafeVal)> = Vec::new();
        let mut i: usize = 0;
        while i < self.fields.len()
            invariant
                i <= self.fields@.len(),
                r@ == self.fields@.take(i as int),
            decreases self.fields@.len() - i,
        {
            r.push(self.fields[i]);
            proof {
                assert(self.fields@.take(i + 1) =~= self.fields@.take(i as int).push(self.fields@[i as int]));
            }
            i = i + 1;
        }
        proof {
            assert(self.fields@.take(i as int) =~= self.fields@);
        }
        r
    }

    /// All values within `self`, in the order their names were first set.
    pub fn values(&self) -> (r: Vec<UnsafeVal>)
        ensures
            r@ == field_values(self.fields()),
    {
        let mut r: Vec<UnsafeVal> = Vec::new();
        let mut i: usize = 0;
        while i < self.fields.len()
            invariant
                i <= self.fields@.len(),
                r@ == field_values(self.fields@).take(i as int),
            decreases self.fields@.len() - i,
        {
            r.push(self.fields[i].1);
            proof {
                assert(field_values(self.fields@).take(i + 1) =~= field_values(self.fields@).take(i as int).push(self.fields@[i as int].1));
            }
            i = i + 1;
        }
        proof {
            assert(field_values(self.fields@).take(i as int) =~= field_values(self.fields@));
        }
        r
    }
}


/// The kind under which the set of values to keep reachable holds objects of a store.
pub open spec fn kept_kind(k: ObjKind) -> Option<GcKind> {
    match k {
        ObjKind::String => Some(GcKind::String),
        ObjKind::MutableBox => Some(GcKind::MutableBox),
        ObjKind::List => Some(GcKind::List),
        ObjKind::Struct => Some(GcKind::Struct),
        ObjKind::ByteCode => Some(GcKind::ByteCode),
        ObjKind::Custom => Some(GcKind::Custom),
    }
}

/// Manages the lifetime of the objects that values refer to. `C` is the type of custom values.
#[derive(Debug)]
pub struct MemoryManager<'a, C> {
    vm_id: u16,
    interned_symbols: SymbolInterner,
    strings: ObjectStore<CompactString>,
    mutable_boxes: ObjectStore<UnsafeVal>,
    lists: ObjectStore<ListVal>,
    structs: ObjectStore<StructVal>,
    bytecodes: ObjectStore<Function<'a>>,
    customs: ObjectStore<C>,
    keep_reachable: KeepReachableSet,
    reachable_color: Color,
    empty_list: ListVal,
}

impl<'a, C> MemoryManager<'a, C> {
    pub closed spec fn spec_vm_id(&self) -> u16 {
        self.vm_id
    }

    /// The interned strings, by index.
    pub closed spec fn symbols(&self) -> Seq<Seq<char>> {
        self.interned_symbols.names()
    }

    pub closed spec fn strings(&self) -> ObjectStore<CompactString> {
        self.strings
    }

    pub closed spec fn boxes(&self) -> ObjectStore<UnsafeVal> {
        self.mutable_boxes
    }

    pub closed spec fn lists(&self) -> ObjectStore<ListVal> {
        self.lists
    }

    pub closed spec fn structs(&self) -> ObjectStore<StructVal> {
        self.structs
    }

    pub closed spec fn bytecodes(&self) -> ObjectStore<Function<'a>> {
        self.bytecodes
    }

    pub closed spec fn customs(&self) -> ObjectStore<C> {
        self.customs
    }

    /// The color of the objects found reachable by the last collection.
    pub closed spec fn spec_reachable_color(&self) -> Color {
        self.reachable_color
    }

    /// The number of references held to keep the object `idx` of `kind` reachable.
    pub closed spec fn kept(&self, kind: GcKind, idx: u32) -> nat {
        self.keep_reachable.refs(kind, idx)
    }

    /// Slot `i` of the store `k` holds an object.
    pub open spec fn live(&self, k: ObjKind, i: int) -> bool {
        match k {
            ObjKind::String => self.strings().live(i),
            ObjKind::MutableBox => self.boxes().live(i),
            ObjKind::List => self.lists().live(i),
            ObjKind::Struct => self.structs().live(i),
            ObjKind::ByteCode => self.bytecodes().live(i),
            ObjKind::Custom => self.customs().live(i),
        }
    }

    /// The color of slot `i` of the store `k`.
    pub open spec fn color(&self, k: ObjKind, i: int) -> Color {
        match k {
            ObjKind::String => self.strings().color(i),
            ObjKind::MutableBox => self.boxes().color(i),
            ObjKind::List => self.lists().color(i),
            ObjKind::Struct => self.structs().color(i),
            ObjKind::ByteCode => self.bytecodes().color(i),
            ObjKind::Custom => self.customs().color(i),
        }
    }

    /// The values that the object in slot `i` of the store `k` holds: the content of a box,
    /// the items of a list, the field values of a struct, the constants of a function (`void`
    /// for an instruction that pushes none). Strings and custom values hold none.
    pub open spec fn children(&self, k: ObjKind, i: int) -> Seq<UnsafeVal> {
        match k {
            ObjKind::MutableBox => if self.boxes().live(i) {
                seq![self.boxes().object(i)]
            } else {
                Seq::empty()
            },
            ObjKind::List => if self.lists().live(i) {
                self.lists().object(i)@
            } else {
                Seq::empty()
            },
            ObjKind::Struct => if self.structs().live(i) {
                field_values(self.structs().object(i).fields())
            } else {
                Seq::empty()
            },
            ObjKind::ByteCode => if self.bytecodes().live(i) {
                const_values(self.bytecodes().object(i).consts@)
            } else {
                Seq::empty()
            },
            _ => Seq::empty(),
        }
    }

    /// Every store is well formed, every struct names each field once, and between two
    /// collections every object but the strings carries the color that the next collection
    /// starts from.
    pub open spec fn wf(&self) -> bool {
        &&& self.strings().wf()
        &&& self.boxes().wf()
        &&& self.lists().wf()
        &&& self.structs().wf()
        &&& self.bytecodes().wf()
        &&& self.customs().wf()
        &&& self.kept_wf()
        &&& self.symbols_wf()
        &&& forall|i: int| #[trigger] self.structs().view_map().contains_key(i) ==> self.structs().view_map()[i].wf()
        &&& forall|k: ObjKind, i: int|
            k != ObjKind::String && #[trigger] self.live(k, i) ==> self.color(k, i)
                == self.spec_reachable_color().spec_other()
    }

    pub closed spec fn kept_wf(&self) -> bool {
        &&& self.keep_reachable.wf()
        &&& self.empty_list@.len() == 0
    }

    pub closed spec fn symbols_wf(&self) -> bool {
        &&& self.interned_symbols.wf()
        &&& self.interned_symbols.spec_vm_id() == self.vm_id
    }

    /// A store `k` can take one more object.
    pub open spec fn has_room(&self, k: ObjKind) -> bool {
        match k {
            ObjKind::String => self.strings().free_ids().len() > 0 || self.strings().slots().len() <= u32::MAX,
            ObjKind::MutableBox => self.boxes().free_ids().len() > 0 || self.boxes().slots().len() <= u32::MAX,
            ObjKind::List => self.lists().free_ids().len() > 0 || self.lists().slots().len() <= u32::MAX,
            ObjKind::Struct => self.structs().free_ids().len() > 0 || self.structs().slots().len() <= u32::MAX,
            ObjKind::ByteCode => self.bytecodes().free_ids().len() > 0 || self.bytecodes().slots().len() <= u32::MAX,
            ObjKind::Custom => self.customs().free_ids().len() > 0 || self.customs().slots().len() <= u32::MAX,
        }
    }

    /// Create a new memory manager for the machine with the given id.
    pub fn new(vm_id: u16) -> (r: MemoryManager<'a, C>)
        ensures
            r.wf(),
            r.spec_vm_id() == vm_id,
            r.symbols() == Seq::<Seq<char>>::empty(),
            forall|k: ObjKind, i: int| !#[trigger] r.live(k, i),
            forall|kind: GcKind, idx: u32| #[trigger] r.kept(kind, idx) == 0,
    {
        let r = MemoryManager {
            vm_id,
            interned_symbols: SymbolInterner::new(vm_id),
            strings: ObjectStore::new(),
            mutable_boxes: ObjectStore::new(),
            lists: ObjectStore::new(),
            structs: ObjectStore::new(),
            bytecodes: ObjectStore::new(),
            customs: ObjectStore::new(),
            keep_reachable: KeepReachableSet::new(),
            reachable_color: Color::default(),
            empty_list: Vec::new(),
        };
        r
    }

    /// Whether the store `k` can take one more object.
    pub fn can_insert(&self, k: ObjKind) -> (r: bool)
        ensures
            r == self.has_room(k),
    {
        match k {
            ObjKind::String => self.strings.can_insert(),
            ObjKind::MutableBox => self.mutable_boxes.can_insert(),
            ObjKind::List => self.lists.can_insert(),
            ObjKind::Struct => self.structs.can_insert(),
            ObjKind::ByteCode => self.bytecodes.can_insert(),
            ObjKind::Custom => self.customs.can_insert(),
        }
    }

    /// Get an interned string's value.
    pub fn symbol_to_str(&self, s: Symbol) -> (r: Option<&str>)
        requires
            self.wf(),
        ensures
            match r {
                Some(text) => s.vm_id == self.spec_vm_id() && s.idx < self.symbols().len()
                    && text@ == self.symbols()[s.idx as int],
                None => s.vm_id != self.spec_vm_id() || s.idx >= self.symbols().len(),
            },
    {
        self.interned_symbols.symbol_to_str(s)
    }

    /// Get an interned string.
    pub fn get_symbol(&self, s: &str) -> (r: Option<Symbol>)
        requires
            self.wf(),
        ensures
            match r {
                Some(sym) => sym.vm_id == self.spec_vm_id() && sym.idx < self.symbols().len()
                    && self.symbols()[sym.idx as int] == s@,
                None => !self.symbols().contains(s@),
            },
    {
        self.interned_symbols.get_symbol(s)
    }

    /// Get or create an interned string.
    pub fn get_or_create_symbol(&mut self, s: &str) -> (r: Symbol)
        requires
            old(self).wf(),
            !old(self).symbols().contains(s@) ==> old(self).symbols().len() < u32::MAX,
        ensures
            final(self).wf(),
            r.vm_id == old(self).spec_vm_id(),
            r.idx < final(self).symbols().len(),
            final(self).symbols()[r.idx as int] == s@,
            old(self).symbols().contains(s@) ==> final(self).symbols() == old(self).symbols(),
            !old(self).symbols().contains(s@) ==> final(self).symbols() == old(self).symbols().push(s@)
                && r.idx == old(self).symbols().len(),
            final(self).spec_vm_id() == old(self).spec_vm_id(),
            forall|k: ObjKind, i: int| #[trigger] final(self).live(k, i) == old(self).live(k, i),
            Self::same_stores(*old(self), *final(self)),
    {
        let ghost before = *self;
        let r = self.interned_symbols.get_or_create_symbol(self.vm_id, s);
        proof {
            assert(forall|k: ObjKind, i: int| #[trigger] self.live(k, i) == before.live(k, i) && self.color(k, i) == before.color(k, i));
        }
        r
    }

    /// The number of interned strings.
    pub fn symbol_count(&self) -> (r: usize)
        ensures
            r == self.symbols().len(),
    {
        self.interned_symbols.len()
    }

    /// No string is interned twice, and every index fits a symbol.
    pub proof fn lemma_symbols_distinct(&self)
        requires
            self.wf(),
        ensures
            forall|a: int, b: int| 0 <= a < b < self.symbols().len() ==> self.symbols()[a] != self.symbols()[b],
            self.symbols().len() <= u32::MAX,
    {
    }

    /// The stores, the references kept, the color and the machine's id are the same in `old`
    /// and `new`: only the interned strings may differ.
    pub open spec fn same_stores(old: Self, new: Self) -> bool {
        &&& new.strings() == old.strings()
        &&& new.boxes() == old.boxes()
        &&& new.lists() == old.lists()
        &&& new.structs() == old.structs()
        &&& new.bytecodes() == old.bytecodes()
        &&& new.customs() == old.customs()
        &&& new.kept_set() == old.kept_set()
        &&& new.spec_reachable_color() == old.spec_reachable_color()
        &&& new.spec_vm_id() == old.spec_vm_id()
        &&& forall|kind: GcKind, idx: u32| #[trigger] new.kept(kind, idx) == old.kept(kind, idx)
    }

    /// Every store is well formed.
    pub open spec fn stores_wf(&self) -> bool {
        &&& self.strings().wf()
        &&& self.boxes().wf()
        &&& self.lists().wf()
        &&& self.structs().wf()
        &&& self.bytecodes().wf()
        &&& self.customs().wf()
    }

    /// Marks the object that `val` names with `color`; when it did not have that color yet,
    /// the values it holds that name objects are appended to `worklist`.
    #[verifier::rlimit(60)]
    fn gc_mark_one(&mut self, val: UnsafeVal, color: Color, worklist: &mut Vec<UnsafeVal>)
        requires
            old(self).stores_wf(),
        ensures
            mark_post(*old(self), *final(self), val, color, old(worklist)@, final(worklist)@),
    {
        let ghost before = *self;
        match val {
            UnsafeVal::String(id) => {
                let changed = self.strings.set_color(id, color).is_some();
                proof {
                    if changed {
                        lemma_recolor(before.strings, self.strings, id.idx as int, color);
                        lemma_recolored(before, *self, ObjKind::String, id.idx as int, color);
                    }
                    assert(handles(Seq::<UnsafeVal>::empty()) == Seq::<UnsafeVal>::empty());
                    assert(worklist@ =~= old(worklist)@ + Seq::<UnsafeVal>::empty());
                    assert(worklist@.subrange(0, old(worklist)@.len() as int) =~= old(worklist)@);
                }
            },
            UnsafeVal::MutableBox(id) => {
                match self.mutable_boxes.set_color(id, color) {
                    Some(unboxed) => {
                        let child = *unboxed;
                        proof {
                            lemma_recolor(before.mutable_boxes, self.mutable_boxes, id.idx as int, color);
                            lemma_recolored(before, *self, ObjKind::MutableBox, id.idx as int, color);
                        }
                        if is_garbage_collected(child) {
                            worklist.push(child);
                        }
                        proof {
                            assert(seq![child].drop_last() =~= Seq::<UnsafeVal>::empty());
                            assert(seq![child].last() == child);
                            assert(handles(Seq::<UnsafeVal>::empty()) == Seq::<UnsafeVal>::empty());
                            assert(Seq::<UnsafeVal>::empty().push(child) =~= seq![child]);
                            if obj_key(child) is Some {
                                assert(handles(seq![child]) == seq![child]);
                            } else {
                                assert(handles(seq![child]) == Seq::<UnsafeVal>::empty());
                            }
                            assert(worklist@ =~= old(worklist)@ + handles(seq![child]));
                            assert(before.children(ObjKind::MutableBox, id.idx as int) == seq![child]);
                            assert(seq![child][0] == child);
                            assert(before.children(ObjKind::MutableBox, id.idx as int).contains(child));
                            assert(worklist@.subrange(0, old(worklist)@.len() as int) =~= old(worklist)@);
                            if obj_key(child) is Some {
                                assert(worklist@[old(worklist)@.len() as int] == child);
                            }
                        }
                    },
                    None => {},
                }
            },
            UnsafeVal::List(id) => {
                match self.lists.set_color(id, color) {
                    Some(list) => {
                        let ghost items = list@;
                        let mut q: usize = 0;
                        while q < list.len()
                            invariant
                                q <= items.len(),
                                items == list@,
                                old(worklist)@.len() <= worklist@.len(),
                                worklist@.subrange(0, old(worklist)@.len() as int) == old(worklist)@,
                                worklist@ == old(worklist)@ + handles(items.take(q as int)),
                                forall|j: int|
                                    old(worklist)@.len() <= j < worklist@.len() ==> obj_key(
                                        #[trigger] worklist@[j],
                                    ) is Some && items.contains(worklist@[j]),
                                forall|x: int| 0 <= x < q && obj_key(#[trigger] items[x]) is Some ==> worklist@.contains(items[x]),
                            decreases items.len() - q,
                        {
                            let child = list[q];
                            proof {
                                lemma_handles_step(items, q as int);
                            }
                            if is_garbage_collected(child) {
                                let ghost wl0 = worklist@;
                                worklist.push(child);
                                proof {
                                    assert(worklist@.subrange(0, old(worklist)@.len() as int) =~= wl0.subrange(0, old(worklist)@.len() as int));
                                    assert(worklist@[wl0.len() as int] == child);
                                    assert forall|x: int| 0 <= x < q + 1 && obj_key(#[trigger] items[x]) is Some implies worklist@.contains(items[x]) by {
                                        if x < q {
                                            let w = choose|w: int| 0 <= w < wl0.len() && wl0[w] == items[x];
                                            assert(worklist@[w] == items[x]);
                                        } else {
                                            assert(worklist@[wl0.len() as int] == items[x]);
                                        }
                                    }
                                    assert forall|j: int| old(worklist)@.len() <= j < worklist@.len() implies obj_key(#[trigger] worklist@[j]) is Some && items.contains(worklist@[j]) by {
                                        if j < wl0.len() {
                                            assert(worklist@[j] == wl0[j]);
                                        } else {
                                            assert(items[q as int] == child);
                                        }
                                    }
                                }
                            }
                            q = q + 1;
                        }
                        proof {
                            lemma_recolor(before.lists, self.lists, id.idx as int, color);
                            lemma_recolored(before, *self, ObjKind::List, id.idx as int, color);
                            assert(before.children(ObjKind::List, id.idx as int) == items);
                            assert(items.take(q as int) =~= items);
                        }
                    },
                    None => {},
                }
            },
            UnsafeVal::Struct(id) => {
                match self.structs.set_color(id, color) {
                    Some(strct) => {
                        let values = strct.values();
                        proof {
                            lemma_recolor(before.structs, self.structs, id.idx as int, color);
                        }
                        let ghost items = values@;
                        let mut q: usize = 0;
                        while q < values.len()
                            invariant
                                q <= items.len(),
                                items == values@,
                                old(worklist)@.len() <= worklist@.len(),
                                worklist@.subrange(0, old(worklist)@.len() as int) == old(worklist)@,
                                worklist@ == old(worklist)@ + handles(items.take(q as int)),
                                forall|j: int|
                                    old(worklist)@.len() <= j < worklist@.len() ==> obj_key(
                                        #[trigger] worklist@[j],
                                    ) is Some && items.contains(worklist@[j]),
                                forall|x: int| 0 <= x < q && obj_key(#[trigger] items[x]) is Some ==> worklist@.contains(items[x]),
                            decreases items.len() - q,
                        {
                            let child = values[q];
                            proof {
                                lemma_handles_step(items, q as int);
                            }
                            if is_garbage_collected(child) {
                                let ghost wl0 = worklist@;
                                worklist.push(child);
                                proof {
                                    assert(worklist@.subrange(0, old(worklist)@.len() as int) =~= wl0.subrange(0, old(worklist)@.len() as int));
                                    assert(worklist@[wl0.len() as int] == child);
                                    assert forall|x: int| 0 <= x < q + 1 && obj_key(#[trigger] items[x]) is Some implies worklist@.contains(items[x]) by {
                                        if x < q {
                                            let w = choose|w: int| 0 <= w < wl0.len() && wl0[w] == items[x];
                                            assert(worklist@[w] == items[x]);
                                        } else {
                                            assert(worklist@[wl0.len() as int] == items[x]);
                                        }
                                    }
                                    assert forall|j: int| old(worklist)@.len() <= j < worklist@.len() implies obj_key(#[trigger] worklist@[j]) is Some && items.contains(worklist@[j]) by {
                                        if j < wl0.len() {
                                            assert(worklist@[j] == wl0[j]);
                                        } else {
                                            assert(items[q as int] == child);
                                        }
                                    }
                                }
                            }
                            q = q + 1;
                        }
                        proof {
                            lemma_recolored(before, *self, ObjKind::Struct, id.idx as int, color);
                            assert(before.children(ObjKind::Struct, id.idx as int) == items);
                            assert(items.take(q as int) =~= items);
                        }
                    },
                    None => {},
                }
            },
            UnsafeVal::ByteCodeFunction(id) => {
                match self.bytecodes.set_color(ValId::new(id.idx), color) {
                    Some(function) => {
                        let ghost items = const_values(function.consts@);
                        let mut q: usize = 0;
                        while q < function.consts.len()
                            invariant
                                q <= items.len(),
                                items == const_values(function.consts@),
                                old(worklist)@.len() <= worklist@.len(),
                                worklist@.subrange(0, old(worklist)@.len() as int) == old(worklist)@,
                                worklist@ == old(worklist)@ + handles(items.take(q as int)),
                                forall|j: int|
                                    old(worklist)@.len() <= j < worklist@.len() ==> obj_key(
                                        #[trigger] worklist@[j],
                                    ) is Some && items.contains(worklist@[j]),
                                forall|x: int| 0 <= x < q && obj_key(#[trigger] items[x]) is Some ==> worklist@.contains(items[x]),
                            decreases items.len() - q,
                        {
                            proof {
                                lemma_handles_step(items, q as int);
                            }
                            if let Some(child) = function.consts[q] {
                                if is_garbage_collected(child) {
                                    let ghost wl0 = worklist@;
                                    worklist.push(child);
                                    proof {
                                        assert(items[q as int] == child);
                                        assert(worklist@.subrange(0, old(worklist)@.len() as int) =~= wl0.subrange(0, old(worklist)@.len() as int));
                                        assert(worklist@[wl0.len() as int] == child);
                                        assert forall|x: int| 0 <= x < q + 1 && obj_key(#[trigger] items[x]) is Some implies worklist@.contains(items[x]) by {
                                            if x < q {
                                                let w = choose|w: int| 0 <= w < wl0.len() && wl0[w] == items[x];
                                                assert(worklist@[w] == items[x]);
                                            } else {
                                                assert(worklist@[wl0.len() as int] == items[x]);
                                            }
                                        }
                                        assert forall|j: int| old(worklist)@.len() <= j < worklist@.len() implies obj_key(#[trigger] worklist@[j]) is Some && items.contains(worklist@[j]) by {
                                            if j < wl0.len() {
                                                assert(worklist@[j] == wl0[j]);
                                            }
                                        }
                                    }
                                }
                            }
                            q = q + 1;
                        }
                        proof {
                            lemma_recolor(before.bytecodes, self.bytecodes, id.idx as int, color);
                            lemma_recolored(before, *self, ObjKind::ByteCode, id.idx as int, color);
                            assert(before.children(ObjKind::ByteCode, id.idx as int) == items);
                            assert(items.take(q as int) =~= items);
                        }
                    },
                    None => {},
                }
            },
            UnsafeVal::Custom(id) => {
                let changed = self.customs.set_color(ValId::new(id.idx), color).is_some();
                proof {
                    if changed {
                        lemma_recolor(before.customs, self.customs, id.idx as int, color);
                        lemma_recolored(before, *self, ObjKind::Custom, id.idx as int, color);
                    }
                    assert(handles(Seq::<UnsafeVal>::empty()) == Seq::<UnsafeVal>::empty());
                    assert(worklist@ =~= old(worklist)@ + Seq::<UnsafeVal>::empty());
                    assert(worklist@.subrange(0, old(worklist)@.len() as int) =~= old(worklist)@);
                }
            },
            _ => {},
        }
    }

    /// Run the garbage collector. Every object that neither a value of `roots` nor a value kept
    /// reachable reaches, directly or through the values that boxes, lists and structs hold, is
    /// freed; every object reached stays as it was. Strings are never freed.
    pub fn run_gc(&mut self, roots: &Vec<UnsafeVal>)
        requires
            old(self).wf(),
        ensures
            final(self).wf(),
            final(self).spec_vm_id() == old(self).spec_vm_id(),
            final(self).symbols() == old(self).symbols(),
            final(self).kept_set() == old(self).kept_set(),
            final(self).spec_reachable_color() == old(self).spec_reachable_color().spec_other(),
            final(self).strings().view_map() == old(self).strings().view_map(),
            forall|k: ObjKind, i: u32|
                k != ObjKind::String ==> (#[trigger] final(self).live(k, i as int) <==> old(self).live(
                    k,
                    i as int,
                ) && gc_reachable(*old(self), roots@, (k, i))),
            forall|i: int| #[trigger] final(self).boxes().live(i) ==> final(self).boxes().object(i) == old(self).boxes().object(i),
            forall|i: int| #[trigger] final(self).lists().live(i) ==> final(self).lists().object(i) == old(self).lists().object(i),
            forall|i: int| #[trigger] final(self).structs().live(i) ==> final(self).structs().object(i) == old(self).structs().object(i),
            forall|i: int| #[trigger] final(self).bytecodes().live(i) ==> final(self).bytecodes().object(i) == old(self).bytecodes().object(i),
            forall|i: int| #[trigger] final(self).customs().live(i) ==> final(self).customs().object(i) == old(self).customs().object(i),
    {
        let ghost g0 = *self;
        let ghost rs = roots@;
        let color = self.reachable_color;
        let worklist = self.gc_roots(roots);
        proof {
            lemma_gc_start(g0, rs, worklist@);
        }
        self.gc_mark(worklist, color, Ghost(g0), Ghost(rs));
        let ghost m = *self;
        self.gc_sweep();
        proof {
            lemma_gc_end(g0, rs, color, m, *self);
        }
    }

    /// The values to start marking from: `roots`, then the values kept reachable. They name
    /// exactly the roots.
    fn gc_roots(&self, roots: &Vec<UnsafeVal>) -> (r: Vec<UnsafeVal>)
        requires
            self.wf(),
        ensures
            forall|key: (ObjKind, u32)| #[trigger] is_root(*self, roots@, key) ==> in_worklist(r@, key),
            forall|x: int|
                0 <= x < r@.len() ==> (obj_key(#[trigger] r@[x]) matches Some(key) ==> is_root(*self, roots@, key)),
    {
        let ghost rs = roots@;
        let mut worklist: Vec<UnsafeVal> = Vec::new();
        let mut j: usize = 0;
        while j < roots.len()
            invariant
                j <= roots@.len(),
                worklist@ == roots@.take(j as int),
            decreases roots@.len() - j,
        {
            worklist.push(roots[j]);
            proof {
                assert(roots@.take(j + 1) =~= roots@.take(j as int).push(roots@[j as int]));
            }
            j = j + 1;
        }
        proof {
            assert(roots@.take(j as int) =~= roots@);
        }
        let kept = self.keep_reachable.iter();
        let mut q: usize = 0;
        while q < kept.len()
            invariant
                q <= kept@.len(),
                worklist@.len() == rs.len() + q,
                forall|x: int| 0 <= x < rs.len() ==> #[trigger] worklist@[x] == rs[x],
                forall|x: int|
                    0 <= x < q ==> obj_key(#[trigger] worklist@[rs.len() + x]) == Some(
                        (kind_of(kept@[x].0), kept@[x].1),
                    ),
            decreases kept@.len() - q,
        {
            let (kind, idx) = kept[q];
            let ghost before = worklist@;
            worklist.push(kept_value(kind, idx));
            proof {
                assert forall|x: int| 0 <= x < rs.len() implies #[trigger] worklist@[x] == rs[x] by {
                    assert(worklist@[x] == before[x]);
                }
                assert forall|x: int| 0 <= x < q + 1 implies obj_key(#[trigger] worklist@[rs.len() + x]) == Some((kind_of(kept@[x].0), kept@[x].1)) by {
                    if x < q {
                        assert(worklist@[rs.len() + x] == before[rs.len() + x]);
                    }
                }
            }
            q = q + 1;
        }
        proof {
            let wl = worklist@;
            assert forall|key: (ObjKind, u32)| #[trigger] is_root(*self, rs, key) implies in_worklist(wl, key) by {
                if exists|y: int| 0 <= y < rs.len() && obj_key(#[trigger] rs[y]) == Some(key) {
                    let y = choose|y: int| 0 <= y < rs.len() && obj_key(#[trigger] rs[y]) == Some(key);
                    assert(wl[y] == rs[y]);
                } else {
                    let g = kept_kind(key.0)->0;
                    assert(self.keep_reachable.refs(g, key.1) > 0);
                    assert(kept@.contains((g, key.1)));
                    let x = choose|x: int| 0 <= x < kept@.len() && kept@[x] == (g, key.1);
                    assert(obj_key(wl[rs.len() + x]) == Some((kind_of(g), key.1)));
                }
            }
            assert forall|x: int|
                0 <= x < wl.len() implies (obj_key(#[trigger] wl[x]) matches Some(key) ==> is_root(*self, rs, key)) by {
                if x < rs.len() {
                    assert(wl[x] == rs[x]);
                } else {
                    let y = x - rs.len();
                    assert(obj_key(wl[rs.len() + y]) == Some((kind_of(kept@[y].0), kept@[y].1)));
                    assert(kept@.contains(kept@[y]));
                    assert(self.keep_reachable.refs(kept@[y].0, kept@[y].1) > 0);
                }
            }
        }
        worklist
    }

    /// The mark phase: marks every object that the worklist reaches.
    fn gc_mark(
        &mut self,
        worklist: Vec<UnsafeVal>,
        color: Color,
        Ghost(g0): Ghost<MemoryManager<'a, C>>,
        Ghost(rs): Ghost<Seq<UnsafeVal>>,
    )
        requires
            gc_inv(g0, rs, color, *old(self), worklist@),
            old(self).fixed().2 == color,
        ensures
            gc_inv(g0, rs, color, *final(self), Seq::empty()),
            final(self).fixed().2 == color,
    {
        let mut worklist = worklist;
        while worklist.len() > 0
            invariant
                gc_inv(g0, rs, color, *self, worklist@),
                self.fixed().2 == color,
            decreases count_colored(*self, color.spec_other()), worklist@.len(),
        {
            let ghost wl_full = worklist@;
            let v = worklist.pop().unwrap();
            let ghost before = *self;
            let ghost wl_mid = worklist@;
            proof {
                assert(before.stores_wf());
                assert(wl_full =~= wl_mid.push(v));
            }
            self.gc_mark_one(v, color, &mut worklist);
            proof {
                lemma_mark_step(g0, rs, color, before, *self, v, wl_mid, worklist@);
                if let Some((k, i)) = obj_key(v) {
                    if before.live(k, i as int) && before.color(k, i as int) != color {
                        lemma_two_colors(before.color(k, i as int), color);
                    }
                }
            }
        }
        proof {
            assert(worklist@ =~= Seq::<UnsafeVal>::empty());
        }
    }

    /// The sweep phase: frees every object but the strings that is not marked, then makes the
    /// other color the one that marks.
    fn gc_sweep(&mut self)
        requires
            old(self).stores_wf(),
        ensures
            gc_swept(*old(self), *final(self)),
    {
        let other = self.reachable_color.other();
        self.mutable_boxes.remove_all_with_color(other);
        self.lists.remove_all_with_color(other);
        self.structs.remove_all_with_color(other);
        self.bytecodes.remove_all_with_color(other);
        self.customs.remove_all_with_color(other);
        self.reachable_color = other;
    }

    /// What no store holds: the machine's id, its symbols, the current color and the list
    /// that stands for a missing one.
    pub closed spec fn fixed(&self) -> (u16, SymbolInterner, Color, Seq<UnsafeVal>) {
        (self.vm_id, self.interned_symbols, self.reachable_color, self.empty_list@)
    }

    /// The set of values kept reachable.
    pub closed spec fn kept_set(&self) -> KeepReachableSet {
        self.keep_reachable
    }

    /// Nothing but the store `k` differs between `old` and `new`.
    pub open spec fn same_but(old: Self, new: Self, k: ObjKind) -> bool {
        &&& new.fixed() == old.fixed()
        &&& new.kept_set() == old.kept_set()
        &&& k != ObjKind::String ==> new.strings() == old.strings()
        &&& k != ObjKind::MutableBox ==> new.boxes() == old.boxes()
        &&& k != ObjKind::List ==> new.lists() == old.lists()
        &&& k != ObjKind::Struct ==> new.structs() == old.structs()
        &&& k != ObjKind::ByteCode ==> new.bytecodes() == old.bytecodes()
        &&& k != ObjKind::Custom ==> new.customs() == old.customs()
        &&& new.spec_vm_id() == old.spec_vm_id()
        &&& new.symbols() == old.symbols()
        &&& new.spec_reachable_color() == old.spec_reachable_color()
        &&& forall|kind: GcKind, idx: u32| #[trigger] new.kept(kind, idx) == old.kept(kind, idx)
    }

    /// Marks `value` as reachable so that it doesn't get garbage collected: one more reference
    /// to its object. A value that names no object is left alone.
    pub fn keep_reachable(&mut self, value: UnsafeVal)
        requires
            old(self).wf(),
            obj_key(value) matches Some((k, i)) ==> old(self).kept(kept_kind(k)->0, i) < usize::MAX,
        ensures
            final(self).wf(),
            Self::same_but_kept(*old(self), *final(self)),
            forall|kind: GcKind, idx: u32|
                #[trigger] final(self).kept(kind, idx) == if obj_key(value) == Some((kind_of(kind), idx)) {
                    old(self).kept(kind, idx) + 1
                } else {
                    old(self).kept(kind, idx)
                },
    {
        let ghost before = *self;
        match value {
            UnsafeVal::String(id) => self.keep_reachable.insert(GcKind::String, id.idx),
            UnsafeVal::MutableBox(id) => self.keep_reachable.insert(GcKind::MutableBox, id.idx),
            UnsafeVal::List(id) => self.keep_reachable.insert(GcKind::List, id.idx),
            UnsafeVal::Struct(id) => self.keep_reachable.insert(GcKind::Struct, id.idx),
            UnsafeVal::ByteCodeFunction(id) => self.keep_reachable.insert(GcKind::ByteCode, id.idx),
            UnsafeVal::Custom(id) => self.keep_reachable.insert(GcKind::Custom, id.idx),
            _ => {},
        }
        proof {
            assert(forall|k: ObjKind, i: int| #[trigger] self.live(k, i) == before.live(k, i) && self.color(k, i) == before.color(k, i));
        }
    }

    /// Removes one reference set by `keep_reachable` so that the value may get garbage
    /// collected once none is left.
    pub fn allow_unreachable(&mut self, value: UnsafeVal)
        requires
            old(self).wf(),
        ensures
            final(self).wf(),
            Self::same_but_kept(*old(self), *final(self)),
            forall|kind: GcKind, idx: u32|
                #[trigger] final(self).kept(kind, idx) == if obj_key(value) == Some((kind_of(kind), idx)) && old(self).kept(kind, idx) > 0 {
                    (old(self).kept(kind, idx) - 1) as nat
                } else {
                    old(self).kept(kind, idx)
                },
    {
        let ghost before = *self;
        match value {
            UnsafeVal::String(id) => self.keep_reachable.remove(GcKind::String, id.idx),
            UnsafeVal::MutableBox(id) => self.keep_reachable.remove(GcKind::MutableBox, id.idx),
            UnsafeVal::List(id) => self.keep_reachable.remove(GcKind::List, id.idx),
            UnsafeVal::Struct(id) => self.keep_reachable.remove(GcKind::Struct, id.idx),
            UnsafeVal::ByteCodeFunction(id) => self.keep_reachable.remove(GcKind::ByteCode, id.idx),
            UnsafeVal::Custom(id) => self.keep_reachable.remove(GcKind::Custom, id.idx),
            _ => {},
        }
        proof {
            assert(forall|k: ObjKind, i: int| #[trigger] self.live(k, i) == before.live(k, i) && self.color(k, i) == before.color(k, i));
        }
    }

    /// Nothing but the references kept differs between `old` and `new`.
    pub open spec fn same_but_kept(old: Self, new: Self) -> bool {
        &&& new.fixed() == old.fixed()
        &&& new.strings() == old.strings()
        &&& new.boxes() == old.boxes()
        &&& new.lists() == old.lists()
        &&& new.structs() == old.structs()
        &&& new.bytecodes() == old.bytecodes()
        &&& new.customs() == old.customs()
        &&& new.spec_vm_id() == old.spec_vm_id()
        &&& new.symbols() == old.symbols()
        &&& new.spec_reachable_color() == old.spec_reachable_color()
    }

    /// Get a string by its id; the empty string when it is not there.
    pub fn get_str(&self, id: ValId<CompactString>) -> (r: &str)
        ensures
            r@ == if self.strings().live(id.idx as int) {
                compact_chars(self.strings().object(id.idx as int))
            } else {
                Seq::empty()
            },
    {
        match self.strings.get(id) {
            Some(s) => compact_as_str(s),
            None => {
                proof {
                    reveal_strlit("");
                }
                assert(""@ =~= Seq::<char>::empty());
                ""
            },
        }
    }

    /// Insert a string and get its id.
    pub fn insert_string(&mut self, s: CompactString) -> (r: ValId<CompactString>)
        requires
            old(self).wf(),
            old(self).has_room(ObjKind::String),
        ensures
            final(self).wf(),
            Self::same_but(*old(self), *final(self), ObjKind::String),
            !old(self).strings().live(r.idx as int),
            final(self).strings().view_map() == old(self).strings().view_map().insert(r.idx as int, s),
    {
        let ghost before = *self;
        let r = self.strings.insert(s, self.reachable_color);
        proof {
            assert(forall|k: ObjKind, i: int| k != ObjKind::String ==> #[trigger] self.live(k, i) == before.live(k, i) && self.color(k, i) == before.color(k, i));
        }
        r
    }

    /// Whether the box `id` is there.
    pub fn box_exists(&self, id: ValId<UnsafeVal>) -> (r: bool)
        ensures
            r == self.boxes().live(id.idx as int),
    {
        self.mutable_boxes.get(id).is_some()
    }

    /// Whether the struct `id` is there.
    pub fn struct_exists(&self, id: ValId<StructVal>) -> (r: bool)
        ensures
            r == self.structs().live(id.idx as int),
    {
        self.structs.get(id).is_some()
    }

    /// Whether the custom value `id` is there.
    pub fn custom_exists(&self, id: ValId<CustomSlot>) -> (r: bool)
        ensures
            r == self.customs().live(id.idx as int),
    {
        self.customs.get(ValId::new(id.idx)).is_some()
    }

    /// The number of slots of the boxes, lists and structs, at most `u64::MAX`: a value that
    /// holds no object twice on a path nests no deeper.
    pub fn container_slots(&self) -> (r: u64)
        ensures
            r == min_u64(self.boxes().slots().len() + self.lists().slots().len() + self.structs().slots().len()),
    {
        let a = self.mutable_boxes.slot_count() as u64;
        let b = self.lists.slot_count() as u64;
        let c = self.structs.slot_count() as u64;
        a.saturating_add(b).saturating_add(c)
    }

    /// Get a box's value by its id.
    pub fn get_mutable_box(&self, id: ValId<UnsafeVal>) -> (r: &UnsafeVal)
        requires
            self.boxes().live(id.idx as int),
        ensures
            *r == self.boxes().object(id.idx as int),
    {
        self.mutable_boxes.get(id).unwrap()
    }

    /// Set the mutable box value and return the previous value.
    pub fn set_mutable_box(&mut self, id: ValId<UnsafeVal>, v: UnsafeVal) -> (r: UnsafeVal)
        requires
            old(self).wf(),
            old(self).boxes().live(id.idx as int),
        ensures
            final(self).wf(),
            Self::same_but(*old(self), *final(self), ObjKind::MutableBox),
            r == old(self).boxes().object(id.idx as int),
            final(self).boxes().view_map() == old(self).boxes().view_map().insert(id.idx as int, v),
            forall|i: int| #[trigger] final(self).boxes().live(i) == old(self).boxes().live(i),
    {
        let ghost before = *self;
        let slot = self.mutable_boxes.get_mut(id).unwrap();
        let old_val = *slot;
        *slot = v;
        proof {
            assert(forall|k: ObjKind, i: int| #[trigger] self.live(k, i) == before.live(k, i));
            assert(forall|i: int| 0 <= i < before.boxes().slots().len() ==> #[trigger] self.boxes().slots()[i].color == before.boxes().slots()[i].color);
        }
        old_val
    }

    /// Insert a box and get its id.
    pub fn insert_mutable_box(&mut self, v: UnsafeVal) -> (r: ValId<UnsafeVal>)
        requires
            old(self).wf(),
            old(self).has_room(ObjKind::MutableBox),
        ensures
            final(self).wf(),
            Self::same_but(*old(self), *final(self), ObjKind::MutableBox),
            !old(self).boxes().live(r.idx as int),
            final(self).boxes().view_map() == old(self).boxes().view_map().insert(r.idx as int, v),
    {
        let ghost before = *self;
        let r = self.mutable_boxes.insert(v, self.reachable_color.other());
        proof {
            lemma_insert_live(before.mutable_boxes, self.mutable_boxes, r.idx as int);
            assert forall|k: ObjKind, i: int| k != ObjKind::String && #[trigger] self.live(k, i) implies self.color(k, i) == self.spec_reachable_color().spec_other() by {
                if k == ObjKind::MutableBox {
                    if i != r.idx {
                        assert(before.live(k, i));
                        assert(before.color(k, i) == self.color(k, i));
                    } else {
                        assert(self.boxes().color(i) == before.reachable_color.spec_other());
                    }
                } else {
                    assert(before.live(k, i));
                }
            }
        }
        r
    }

    /// Insert a list and get its id. It starts unreachable so that the next collection looks through its items.
    pub fn insert_list(&mut self, v: ListVal) -> (r: ValId<ListVal>)
        requires
            old(self).wf(),
            old(self).has_room(ObjKind::List),
        ensures
            final(self).wf(),
            Self::same_but(*old(self), *final(self), ObjKind::List),
            !old(self).lists().live(r.idx as int),
            final(self).lists().view_map() == old(self).lists().view_map().insert(r.idx as int, v),
    {
        let ghost before = *self;
        let id = self.lists.insert(v, self.reachable_color.other());
        proof {
            lemma_insert_live(before.lists, self.lists, id.idx as int);
            assert forall|k: ObjKind, i: int| k != ObjKind::String && #[trigger] self.live(k, i) implies self.color(k, i) == self.spec_reachable_color().spec_other() by {
                if k == ObjKind::List {
                    if i != id.idx {
                        assert(before.live(k, i));
                        assert(before.color(k, i) == self.color(k, i));
                    } else {
                        assert(self.lists().color(i) == before.reachable_color.spec_other());
                    }
                } else {
                    assert(before.live(k, i));
                }
            }
        }
        id
    }

    /// Insert a struct and get its id. It starts unreachable so that the next collection looks through its fields.
    pub fn insert_struct(&mut self, v: StructVal) -> (r: ValId<StructVal>)
        requires
            old(self).wf(),
            old(self).has_room(ObjKind::Struct),
            v.wf(),
        ensures
            final(self).wf(),
            Self::same_but(*old(self), *final(self), ObjKind::Struct),
            !old(self).structs().live(r.idx as int),
            final(self).structs().view_map() == old(self).structs().view_map().insert(r.idx as int, v),
    {
        let ghost before = *self;
        let id = self.structs.insert(v, self.reachable_color.other());
        proof {
            lemma_insert_live(before.structs, self.structs, id.idx as int);
            assert forall|k: ObjKind, i: int| k != ObjKind::String && #[trigger] self.live(k, i) implies self.color(k, i) == self.spec_reachable_color().spec_other() by {
                if k == ObjKind::Struct {
                    if i != id.idx {
                        assert(before.live(k, i));
                        assert(before.color(k, i) == self.color(k, i));
                    } else {
                        assert(self.structs().color(i) == before.reachable_color.spec_other());
                    }
                } else {
                    assert(before.live(k, i));
                }
            }

        }
        id
    }

    /// Insert bytecode into the store and return its id.
    pub fn insert_bytecode(&mut self, v: Function<'a>) -> (r: ValId<FunctionSlot>)
        requires
            old(self).wf(),
            old(self).has_room(ObjKind::ByteCode),
        ensures
            final(self).wf(),
            Self::same_but(*old(self), *final(self), ObjKind::ByteCode),
            !old(self).bytecodes().live(r.idx as int),
            final(self).bytecodes().view_map() == old(self).bytecodes().view_map().insert(r.idx as int, v),
    {
        let ghost before = *self;
        let id = self.bytecodes.insert(v, self.reachable_color.other());
        proof {
            lemma_insert_live(before.bytecodes, self.bytecodes, id.idx as int);
            assert forall|k: ObjKind, i: int| k != ObjKind::String && #[trigger] self.live(k, i) implies self.color(k, i) == self.spec_reachable_color().spec_other() by {
                if k == ObjKind::ByteCode {
                    if i != id.idx {
                        assert(before.live(k, i));
                        assert(before.color(k, i) == self.color(k, i));
                    } else {
                        assert(self.bytecodes().color(i) == before.reachable_color.spec_other());
                    }
                } else {
                    assert(before.live(k, i));
                }
            }
        }
        ValId::new(id.idx)
    }

    /// Insert a custom value and get its id.
    pub fn insert_custom(&mut self, v: C) -> (r: ValId<CustomSlot>)
        requires
            old(self).wf(),
            old(self).has_room(ObjKind::Custom),
        ensures
            final(self).wf(),
            Self::same_but(*old(self), *final(self), ObjKind::Custom),
            !old(self).customs().live(r.idx as int),
            final(self).customs().view_map() == old(self).customs().view_map().insert(r.idx as int, v),
    {
        let ghost before = *self;
        let id = self.customs.insert(v, self.reachable_color.other());
        proof {
            lemma_insert_live(before.customs, self.customs, id.idx as int);
            assert forall|k: ObjKind, i: int| k != ObjKind::String && #[trigger] self.live(k, i) implies self.color(k, i) == self.spec_reachable_color().spec_other() by {
                if k == ObjKind::Custom {
                    if i != id.idx {
                        assert(before.live(k, i));
                        assert(before.color(k, i) == self.color(k, i));
                    } else {
                        assert(self.customs().color(i) == before.reachable_color.spec_other());
                    }
                } else {
                    assert(before.live(k, i));
                }
            }
        }
        ValId::new(id.idx)
    }

    /// Get a list by its id; the empty list when it is not there.
    pub fn get_list(&self, id: ValId<ListVal>) -> (r: &ListVal)
        requires
            self.wf(),
        ensures
            r@ == if self.lists().live(id.idx as int) {
                self.lists().object(id.idx as int)@
            } else {
                Seq::empty()
            },
    {
        match self.lists.get(id) {
            Some(list) => list,
            None => &self.empty_list,
        }
    }

    /// Get a struct by its id.
    pub fn get_struct(&self, id: ValId<StructVal>) -> (r: &StructVal)
        requires
            self.structs().live(id.idx as int),
        ensures
            *r == self.structs().object(id.idx as int),
    {
        self.structs.get(id).unwrap()
    }

    /// Get a struct by its id, to change it. The manager stays well formed when the struct
    /// does (see [`lemma_struct_change_keeps_wf`]).
    pub fn get_struct_mut(&mut self, id: ValId<StructVal>) -> (r: &mut StructVal)
        requires
            old(self).wf(),
            old(self).structs().live(id.idx as int),
        ensures
            *r == old(self).structs().object(id.idx as int),
            r.wf(),
            Self::same_but(*old(self), *final(self), ObjKind::Struct),
            final(self).structs().wf(),
            final(self).structs().view_map() == old(self).structs().view_map().insert(
                id.idx as int,
                *final(r),
            ),
            forall|i: int| #[trigger] final(self).structs().live(i) == old(self).structs().live(i),
            forall|i: int|
                #[trigger] final(self).structs().live(i) ==> final(self).structs().color(i) == old(
                    self,
                ).structs().color(i),
    {
        proof {
            assert(self.structs().view_map().contains_key(id.idx as int));
        }
        self.structs.get_mut(id).unwrap()
    }

    /// Get a bytecode by its id.
    pub fn get_bytecode(&self, id: ValId<FunctionSlot>) -> (r: Option<&Function<'a>>)
        ensures
            match r {
                Some(b) => self.bytecodes().live(id.idx as int) && *b == self.bytecodes().object(id.idx as int),
                None => !self.bytecodes().live(id.idx as int),
            },
    {
        self.bytecodes.get(ValId::new(id.idx))
    }

    /// Get a custom value by its id.
    pub fn get_custom(&self, id: ValId<CustomSlot>) -> (r: &C)
        requires
            self.customs().live(id.idx as int),
        ensures
            *r == self.customs().object(id.idx as int),
    {
        self.customs.get(ValId::new(id.idx)).unwrap()
    }
}

/// The object `k` is one that `roots` names, or one kept reachable.
pub open spec fn is_root<'a, C>(m: MemoryManager<'a, C>, roots: Seq<UnsafeVal>, k: (ObjKind, u32)) -> bool {
    ||| exists|j: int| 0 <= j < roots.len() && obj_key(#[trigger] roots[j]) == Some(k)
    ||| kept_kind(k.0) matches Some(g) && m.kept(g, k.1) > 0
}

/// The object `p` holds a value that names the object `c`.
pub open spec fn holds_child<'a, C>(m: MemoryManager<'a, C>, p: (ObjKind, u32), c: (ObjKind, u32)) -> bool {
    exists|j: int|
        0 <= j < m.children(p.0, p.1 as int).len() && obj_key(
            #[trigger] m.children(p.0, p.1 as int)[j],
        ) == Some(c)
}

/// `path` starts at a root and each of its objects holds the next one.
pub open spec fn is_path<'a, C>(m: MemoryManager<'a, C>, roots: Seq<UnsafeVal>, path: Seq<(ObjKind, u32)>) -> bool {
    &&& path.len() > 0
    &&& is_root(m, roots, path[0])
    &&& forall|x: int| 0 <= x < path.len() - 1 ==> holds_child(m, #[trigger] path[x], path[x + 1])
}

/// The object `k` is reached from the roots: some path from a root ends at it.
pub open spec fn gc_reachable<'a, C>(m: MemoryManager<'a, C>, roots: Seq<UnsafeVal>, k: (ObjKind, u32)) -> bool {
    exists|path: Seq<(ObjKind, u32)>| #[trigger] is_path(m, roots, path) && path.last() == k
}

/// The object `k` is not there, or has color `c`.
pub open spec fn marked<'a, C>(m: MemoryManager<'a, C>, k: (ObjKind, u32), c: Color) -> bool {
    !m.live(k.0, k.1 as int) || m.color(k.0, k.1 as int) == c
}

/// Some value of `wl` names the object `k`.
pub open spec fn in_worklist(wl: Seq<UnsafeVal>, k: (ObjKind, u32)) -> bool {
    exists|j: int| 0 <= j < wl.len() && obj_key(#[trigger] wl[j]) == Some(k)
}

/// The number of objects of color `c` over all stores.
pub open spec fn count_colored<'a, C>(m: MemoryManager<'a, C>, c: Color) -> nat {
    count_with_color(m.strings().slots(), c) + count_with_color(m.boxes().slots(), c)
        + count_with_color(m.lists().slots(), c) + count_with_color(m.structs().slots(), c)
        + count_with_color(m.bytecodes().slots(), c) + count_with_color(m.customs().slots(), c)
}

/// `new` is `old` with only the color of slot `i` of the store `k` changed, to `c`.
pub open spec fn recolored<'a, C>(old: MemoryManager<'a, C>, new: MemoryManager<'a, C>, k: ObjKind, i: int, c: Color) -> bool {
    &&& new.fixed() == old.fixed()
    &&& new.kept_set() == old.kept_set()
    &&& new.strings().view_map() == old.strings().view_map()
    &&& new.boxes().view_map() == old.boxes().view_map()
    &&& new.lists().view_map() == old.lists().view_map()
    &&& new.structs().view_map() == old.structs().view_map()
    &&& new.bytecodes().view_map() == old.bytecodes().view_map()
    &&& new.customs().view_map() == old.customs().view_map()
    &&& new.stores_wf()
    &&& forall|k2: ObjKind, j: int| #[trigger] new.live(k2, j) == old.live(k2, j)
    &&& forall|k2: ObjKind, j: int| #[trigger] new.children(k2, j) == old.children(k2, j)
    &&& forall|k2: ObjKind, j: int|
        (k2 != k || j != i) && #[trigger] new.live(k2, j) ==> new.color(k2, j) == old.color(k2, j)
    &&& new.color(k, i) == c
    &&& count_colored(new, old.color(k, i)) + 1 == count_colored(old, old.color(k, i))
}

/// What marking `val` with `color` did: when it names a live object of another color, that
/// object alone was recolored and the values it holds that name objects were appended to the
/// worklist; otherwise nothing changed.
pub open spec fn mark_post<'a, C>(
    old: MemoryManager<'a, C>,
    new: MemoryManager<'a, C>,
    val: UnsafeVal,
    color: Color,
    wl_old: Seq<UnsafeVal>,
    wl_new: Seq<UnsafeVal>,
) -> bool {
    match obj_key(val) {
        Some((k, i)) => if old.live(k, i as int) && old.color(k, i as int) != color {
            &&& recolored(old, new, k, i as int, color)
            &&& wl_old.len() <= wl_new.len()
            &&& wl_new.subrange(0, wl_old.len() as int) == wl_old
            &&& forall|j: int|
                wl_old.len() <= j < wl_new.len() ==> obj_key(#[trigger] wl_new[j]) is Some
                    && old.children(k, i as int).contains(wl_new[j])
            &&& forall|c: UnsafeVal|
                #[trigger] old.children(k, i as int).contains(c) && obj_key(c) is Some
                    ==> wl_new.contains(c)
            &&& wl_new == wl_old + handles(old.children(k, i as int))
        } else {
            new == old && wl_new == wl_old
        },
        None => new == old && wl_new == wl_old,
    }
}

/// The values of `s` that name objects, in order.
pub open spec fn handles(s: Seq<UnsafeVal>) -> Seq<UnsafeVal>
    decreases s.len(),
{
    if s.len() == 0 {
        Seq::empty()
    } else if obj_key(s.last()) is Some {
        handles(s.drop_last()).push(s.last())
    } else {
        handles(s.drop_last())
    }
}

proof fn lemma_handles_step(items: Seq<UnsafeVal>, q: int)
    requires
        0 <= q < items.len(),
    ensures
        handles(items.take(q + 1)) == if obj_key(items[q]) is Some {
            handles(items.take(q)).push(items[q])
        } else {
            handles(items.take(q))
        },
{
    assert(items.take(q + 1).drop_last() =~= items.take(q));
    assert(items.take(q + 1).last() == items[q]);
}

/// What the mark phase keeps of the manager it started from.
pub open spec fn gc_frame<'a, C>(g0: MemoryManager<'a, C>, m: MemoryManager<'a, C>) -> bool {
    &&& m.fixed() == g0.fixed()
    &&& m.kept_set() == g0.kept_set()
    &&& m.strings().view_map() == g0.strings().view_map()
    &&& m.boxes().view_map() == g0.boxes().view_map()
    &&& m.lists().view_map() == g0.lists().view_map()
    &&& m.structs().view_map() == g0.structs().view_map()
    &&& m.bytecodes().view_map() == g0.bytecodes().view_map()
    &&& m.customs().view_map() == g0.customs().view_map()
    &&& m.stores_wf()
    &&& forall|k: ObjKind, j: int| #[trigger] m.live(k, j) == g0.live(k, j)
    &&& forall|k: ObjKind, j: int| #[trigger] m.children(k, j) == g0.children(k, j)
}

/// The invariant of the mark phase: every object but the strings that carries `c` is reached,
/// so is every object the worklist names; the values held by an object that carries `c`, and
/// the roots, name objects that carry `c` or that the worklist names.
pub open spec fn gc_inv<'a, C>(
    g0: MemoryManager<'a, C>,
    rs: Seq<UnsafeVal>,
    c: Color,
    m: MemoryManager<'a, C>,
    wl: Seq<UnsafeVal>,
) -> bool {
    &&& gc_frame(g0, m)
    &&& forall|k: ObjKind, i: u32|
        k != ObjKind::String && #[trigger] m.live(k, i as int) && m.color(k, i as int) == c
            ==> gc_reachable(g0, rs, (k, i))
    &&& forall|x: int|
        0 <= x < wl.len() ==> (obj_key(#[trigger] wl[x]) matches Some(key) ==> gc_reachable(g0, rs, key))
    &&& forall|k: ObjKind, i: u32, x: int|
        0 <= x < g0.children(k, i as int).len() && m.live(k, i as int) && m.color(k, i as int) == c
            ==> (obj_key(#[trigger] g0.children(k, i as int)[x]) matches Some(ck) ==> marked(m, ck, c)
            || in_worklist(wl, ck))
    &&& forall|key: (ObjKind, u32)|
        #[trigger] is_root(g0, rs, key) ==> marked(m, key, c) || in_worklist(wl, key)
}

/// Each object that a reached object holds is reached.
proof fn lemma_reach_child<'a, C>(
    g0: MemoryManager<'a, C>,
    rs: Seq<UnsafeVal>,
    p: (ObjKind, u32),
    j: int,
)
    requires
        gc_reachable(g0, rs, p),
        0 <= j < g0.children(p.0, p.1 as int).len(),
        obj_key(g0.children(p.0, p.1 as int)[j]) is Some,
    ensures
        gc_reachable(g0, rs, obj_key(g0.children(p.0, p.1 as int)[j])->0),
{
    let ck = obj_key(g0.children(p.0, p.1 as int)[j])->0;
    let path = choose|path: Seq<(ObjKind, u32)>| #[trigger] is_path(g0, rs, path) && path.last() == p;
    let longer = path.push(ck);
    assert(holds_child(g0, p, ck));
    assert forall|x: int| 0 <= x < longer.len() - 1 implies holds_child(g0, #[trigger] longer[x], longer[x + 1]) by {
        if x < path.len() - 1 {
            assert(longer[x] == path[x] && longer[x + 1] == path[x + 1]);
        } else {
            assert(longer[x] == p && longer[x + 1] == ck);
        }
    }
    assert(longer[0] == path[0]);
    assert(is_path(g0, rs, longer));
}

/// A root is reached.
proof fn lemma_root_reachable<'a, C>(g0: MemoryManager<'a, C>, rs: Seq<UnsafeVal>, k: (ObjKind, u32))
    requires
        is_root(g0, rs, k),
    ensures
        gc_reachable(g0, rs, k),
{
    let path = seq![k];
    assert(path[0] == k);
    assert(is_path(g0, rs, path));
}

/// An object that is not there holds nothing.
proof fn lemma_dead_no_children<'a, C>(m: MemoryManager<'a, C>, k: ObjKind, i: int)
    requires
        !m.live(k, i),
    ensures
        m.children(k, i).len() == 0,
{
}

/// Marking one more value of the worklist keeps the invariant of the mark phase.
proof fn lemma_mark_step<'a, C>(
    g0: MemoryManager<'a, C>,
    rs: Seq<UnsafeVal>,
    c: Color,
    before: MemoryManager<'a, C>,
    after: MemoryManager<'a, C>,
    v: UnsafeVal,
    wl_mid: Seq<UnsafeVal>,
    wl_after: Seq<UnsafeVal>,
)
    requires
        gc_inv(g0, rs, c, before, wl_mid.push(v)),
        mark_post(before, after, v, c, wl_mid, wl_after),
        before.fixed().2 == c,
    ensures
        gc_inv(g0, rs, c, after, wl_after),
        marked(after, obj_key(v)->0, c) || obj_key(v) is None,
{
    let wl_pre = wl_mid.push(v);
    assert(wl_pre[wl_mid.len() as int] == v);
    match obj_key(v) {
        Some((k, i)) => {
            if before.live(k, i as int) && before.color(k, i as int) != c {
                // the object of `v` is newly marked
                assert(gc_reachable(g0, rs, (k, i)));
                assert forall|k2: ObjKind, i2: u32|
                    k2 != ObjKind::String && #[trigger] after.live(k2, i2 as int) && after.color(k2, i2 as int) == c
                    implies gc_reachable(g0, rs, (k2, i2)) by {
                    if k2 != k || i2 != i {
                        assert(before.live(k2, i2 as int));
                    }
                }
                assert forall|x: int|
                    0 <= x < wl_after.len() implies (obj_key(#[trigger] wl_after[x]) matches Some(key) ==> gc_reachable(g0, rs, key)) by {
                    if x < wl_mid.len() {
                        assert(wl_after.subrange(0, wl_mid.len() as int)[x] == wl_after[x]);
                        assert(wl_pre[x] == wl_mid[x]);
                    } else {
                        let ch = before.children(k, i as int);
                        assert(ch.contains(wl_after[x]));
                        let j = choose|j: int| 0 <= j < ch.len() && ch[j] == wl_after[x];
                        assert(g0.children(k, i as int) == ch);
                        lemma_reach_child(g0, rs, (k, i), j);
                    }
                }
                assert forall|key: (ObjKind, u32)| in_worklist(wl_pre, key) implies marked(after, key, c) || in_worklist(wl_after, key) by {
                    let y = choose|y: int| 0 <= y < wl_pre.len() && obj_key(#[trigger] wl_pre[y]) == Some(key);
                    if y < wl_mid.len() {
                        assert(wl_after.subrange(0, wl_mid.len() as int)[y] == wl_after[y]);
                        assert(wl_pre[y] == wl_mid[y]);
                        assert(obj_key(wl_after[y]) == Some(key));
                    } else {
                        assert(key == (k, i));
                    }
                }
                assert forall|key: (ObjKind, u32)| marked(before, key, c) implies marked(after, key, c) by {
                    if key.0 != k || key.1 != i {
                        if after.live(key.0, key.1 as int) {
                            assert(after.color(key.0, key.1 as int) == before.color(key.0, key.1 as int));
                        }
                    }
                }
                assert forall|k2: ObjKind, i2: u32, x: int|
                    0 <= x < g0.children(k2, i2 as int).len() && after.live(k2, i2 as int) && after.color(k2, i2 as int) == c
                    implies (obj_key(#[trigger] g0.children(k2, i2 as int)[x]) matches Some(ck) ==> marked(after, ck, c) || in_worklist(wl_after, ck)) by {
                    let ch = g0.children(k2, i2 as int);
                    if let Some(ck) = obj_key(ch[x]) {
                        if k2 == k && i2 == i {
                            assert(before.children(k, i as int) == ch);
                            assert(ch.contains(ch[x]));
                            assert(wl_after.contains(ch[x]));
                            let y = choose|y: int| 0 <= y < wl_after.len() && wl_after[y] == ch[x];
                            assert(obj_key(wl_after[y]) == Some(ck));
                        } else {
                            assert(before.live(k2, i2 as int));
                            assert(before.color(k2, i2 as int) == c);
                        }
                    }
                }
            } else {
                assert(marked(before, (k, i), c));
                assert forall|key: (ObjKind, u32)| in_worklist(wl_pre, key) implies marked(after, key, c) || in_worklist(wl_after, key) by {
                    let y = choose|y: int| 0 <= y < wl_pre.len() && obj_key(#[trigger] wl_pre[y]) == Some(key);
                    if y < wl_mid.len() {
                        assert(wl_pre[y] == wl_mid[y]);
                    }
                }
                assert forall|x: int|
                    0 <= x < wl_after.len() implies (obj_key(#[trigger] wl_after[x]) matches Some(key) ==> gc_reachable(g0, rs, key)) by {
                    assert(wl_pre[x] == wl_mid[x]);
                }
            }
        },
        None => {
            assert forall|key: (ObjKind, u32)| in_worklist(wl_pre, key) implies in_worklist(wl_after, key) by {
                let y = choose|y: int| 0 <= y < wl_pre.len() && obj_key(#[trigger] wl_pre[y]) == Some(key);
                if y < wl_mid.len() {
                    assert(wl_pre[y] == wl_mid[y]);
                }
            }
            assert forall|x: int|
                0 <= x < wl_after.len() implies (obj_key(#[trigger] wl_after[x]) matches Some(key) ==> gc_reachable(g0, rs, key)) by {
                assert(wl_pre[x] == wl_mid[x]);
            }
        },
    }
}

/// When the worklist is empty, every object on a path from a root is marked.
proof fn lemma_path_marked<'a, C>(
    g0: MemoryManager<'a, C>,
    rs: Seq<UnsafeVal>,
    c: Color,
    m: MemoryManager<'a, C>,
    path: Seq<(ObjKind, u32)>,
    x: int,
)
    requires
        gc_inv(g0, rs, c, m, Seq::empty()),
        is_path(g0, rs, path),
        0 <= x < path.len(),
    ensures
        marked(m, path[x], c),
    decreases x,
{
    if x == 0 {
        assert(is_root(g0, rs, path[0]));
        assert(!in_worklist(Seq::<UnsafeVal>::empty(), path[0]));
    } else {
        lemma_path_marked(g0, rs, c, m, path, x - 1);
        let p = path[x - 1];
        assert(holds_child(g0, p, path[x]));
        let j = choose|j: int|
            0 <= j < g0.children(p.0, p.1 as int).len() && obj_key(
                #[trigger] g0.children(p.0, p.1 as int)[j],
            ) == Some(path[x]);
        if !m.live(p.0, p.1 as int) {
            assert(!g0.live(p.0, p.1 as int));
            lemma_dead_no_children(g0, p.0, p.1 as int);
        } else {
            assert(m.color(p.0, p.1 as int) == c);
            assert(!in_worklist(Seq::<UnsafeVal>::empty(), path[x]));
        }
    }
}

/// When the worklist is empty, every reached object is marked.
proof fn lemma_reachable_marked<'a, C>(
    g0: MemoryManager<'a, C>,
    rs: Seq<UnsafeVal>,
    c: Color,
    m: MemoryManager<'a, C>,
    k: (ObjKind, u32),
)
    requires
        gc_inv(g0, rs, c, m, Seq::empty()),
        gc_reachable(g0, rs, k),
    ensures
        marked(m, k, c),
{
    let path = choose|path: Seq<(ObjKind, u32)>| #[trigger] is_path(g0, rs, path) && path.last() == k;
    lemma_path_marked(g0, rs, c, m, path, path.len() - 1);
}

/// There are two colors: one not the other of `b` is `b`.
proof fn lemma_two_colors(a: Color, b: Color)
    ensures
        a != b.spec_other() ==> a == b,
        b.spec_other().spec_other() == b,
{
}

/// The value that names the object `idx` of `kind`.
fn kept_value(kind: GcKind, idx: u32) -> (r: UnsafeVal)
    ensures
        obj_key(r) == Some((kind_of(kind), idx)),
{
    match kind {
        GcKind::String => UnsafeVal::String(ValId::new(idx)),
        GcKind::MutableBox => UnsafeVal::MutableBox(ValId::new(idx)),
        GcKind::List => UnsafeVal::List(ValId::new(idx)),
        GcKind::Struct => UnsafeVal::Struct(ValId::new(idx)),
        GcKind::ByteCode => UnsafeVal::ByteCodeFunction(ValId::new(idx)),
        GcKind::Custom => UnsafeVal::Custom(ValId::new(idx)),
    }
}

/// A worklist that names exactly the roots starts the mark phase.
proof fn lemma_gc_start<'a, C>(g0: MemoryManager<'a, C>, rs: Seq<UnsafeVal>, wl: Seq<UnsafeVal>)
    requires
        g0.wf(),
        forall|key: (ObjKind, u32)| #[trigger] is_root(g0, rs, key) ==> in_worklist(wl, key),
        forall|x: int|
            0 <= x < wl.len() ==> (obj_key(#[trigger] wl[x]) matches Some(key) ==> is_root(g0, rs, key)),
    ensures
        gc_inv(g0, rs, g0.spec_reachable_color(), g0, wl),
{
    let c = g0.spec_reachable_color();
    assert forall|x: int|
        0 <= x < wl.len() implies (obj_key(#[trigger] wl[x]) matches Some(key) ==> gc_reachable(g0, rs, key)) by {
        if let Some(key) = obj_key(wl[x]) {
            lemma_root_reachable(g0, rs, key);
        }
    }
    assert forall|k: ObjKind, i: u32|
        k != ObjKind::String && #[trigger] g0.live(k, i as int) && g0.color(k, i as int) == c
        implies gc_reachable(g0, rs, (k, i)) by {
        assert(g0.color(k, i as int) == c.spec_other());
    }
    assert forall|k: ObjKind, i: u32, x: int|
        0 <= x < g0.children(k, i as int).len() && g0.live(k, i as int) && g0.color(k, i as int) == c
        implies (obj_key(#[trigger] g0.children(k, i as int)[x]) matches Some(ck) ==> marked(g0, ck, c)
        || in_worklist(wl, ck)) by {
        if k != ObjKind::String {
            assert(g0.color(k, i as int) == c.spec_other());
        }
    }
}

/// What sweeping `m` gives: the objects of the other color are freed from every store but the
/// strings, everything else is kept, and the other color becomes the one that marks.
pub open spec fn gc_swept<'a, C>(m: MemoryManager<'a, C>, s: MemoryManager<'a, C>) -> bool {
    let other = m.spec_reachable_color().spec_other();
    &&& s.stores_wf()
    &&& s.spec_reachable_color() == other
    &&& s.spec_vm_id() == m.spec_vm_id()
    &&& s.symbols() == m.symbols()
    &&& s.kept_set() == m.kept_set()
    &&& s.kept_wf() == m.kept_wf()
    &&& s.symbols_wf() == m.symbols_wf()
    &&& s.strings() == m.strings()
    &&& forall|k: ObjKind, i: int|
        k != ObjKind::String ==> (#[trigger] s.live(k, i) <==> m.live(k, i) && m.color(k, i) != other)
    &&& forall|k: ObjKind, i: int| #[trigger] s.live(k, i) ==> s.color(k, i) == m.color(k, i)
    &&& s.boxes().view_map() == m.boxes().view_map().restrict(Set::new(|i: int| m.boxes().live(i) && m.boxes().color(i) != other))
    &&& s.lists().view_map() == m.lists().view_map().restrict(Set::new(|i: int| m.lists().live(i) && m.lists().color(i) != other))
    &&& s.structs().view_map() == m.structs().view_map().restrict(Set::new(|i: int| m.structs().live(i) && m.structs().color(i) != other))
    &&& s.bytecodes().view_map() == m.bytecodes().view_map().restrict(Set::new(|i: int| m.bytecodes().live(i) && m.bytecodes().color(i) != other))
    &&& s.customs().view_map() == m.customs().view_map().restrict(Set::new(|i: int| m.customs().live(i) && m.customs().color(i) != other))
}

/// Marking and then sweeping frees exactly what the roots do not reach.
proof fn lemma_gc_end<'a, C>(
    g0: MemoryManager<'a, C>,
    rs: Seq<UnsafeVal>,
    color: Color,
    m: MemoryManager<'a, C>,
    s: MemoryManager<'a, C>,
)
    requires
        g0.wf(),
        color == g0.spec_reachable_color(),
        gc_inv(g0, rs, color, m, Seq::empty()),
        m.fixed().2 == color,
        gc_swept(m, s),
    ensures
        s.wf(),
        s.spec_vm_id() == g0.spec_vm_id(),
        s.symbols() == g0.symbols(),
        s.kept_set() == g0.kept_set(),
        s.spec_reachable_color() == g0.spec_reachable_color().spec_other(),
        s.strings().view_map() == g0.strings().view_map(),
        forall|k: ObjKind, i: u32|
            k != ObjKind::String ==> (#[trigger] s.live(k, i as int) <==> g0.live(k, i as int)
                && gc_reachable(g0, rs, (k, i))),
        forall|i: int| #[trigger] s.boxes().live(i) ==> s.boxes().object(i) == g0.boxes().object(i),
        forall|i: int| #[trigger] s.lists().live(i) ==> s.lists().object(i) == g0.lists().object(i),
        forall|i: int| #[trigger] s.structs().live(i) ==> s.structs().object(i) == g0.structs().object(i),
        forall|i: int| #[trigger] s.bytecodes().live(i) ==> s.bytecodes().object(i) == g0.bytecodes().object(i),
        forall|i: int| #[trigger] s.customs().live(i) ==> s.customs().object(i) == g0.customs().object(i),
{
    let other = color.spec_other();
    lemma_two_colors(color, color);
    assert(m.spec_reachable_color() == color);
    assert forall|k: ObjKind, i: u32|
        k != ObjKind::String implies (#[trigger] s.live(k, i as int) <==> g0.live(k, i as int)
        && gc_reachable(g0, rs, (k, i))) by {
        if g0.live(k, i as int) && gc_reachable(g0, rs, (k, i)) {
            lemma_reachable_marked(g0, rs, color, m, (k, i));
        }
        if s.live(k, i as int) {
            lemma_two_colors(m.color(k, i as int), color);
        }
        assert(m.live(k, i as int) == g0.live(k, i as int));
    }
    assert forall|i: int| #[trigger] s.structs().view_map().contains_key(i) implies s.structs().view_map()[i].wf() by {
        assert(m.structs().view_map().contains_key(i));
        assert(g0.structs().view_map().contains_key(i));
    }
    assert forall|k: ObjKind, i: int|
        k != ObjKind::String && #[trigger] s.live(k, i) implies s.color(k, i) == s.spec_reachable_color().spec_other() by {
        assert(m.live(k, i));
        lemma_two_colors(m.color(k, i), color);
    }
    assert forall|i: int| #[trigger] s.boxes().live(i) implies s.boxes().object(i) == g0.boxes().object(i) by {
        assert(s.boxes().view_map().contains_key(i));
        assert(s.boxes().view_map()[i] == s.boxes().object(i));
        assert(m.boxes().view_map().contains_key(i));
        assert(s.boxes().view_map()[i] == m.boxes().view_map()[i]);
        assert(g0.boxes().view_map().contains_key(i));
        assert(m.boxes().view_map()[i] == g0.boxes().view_map()[i]);
        assert(g0.boxes().view_map()[i] == g0.boxes().object(i));
    }
    assert forall|i: int| #[trigger] s.lists().live(i) implies s.lists().object(i) == g0.lists().object(i) by {
        assert(s.lists().view_map().contains_key(i));
        assert(s.lists().view_map()[i] == s.lists().object(i));
        assert(m.lists().view_map().contains_key(i));
        assert(s.lists().view_map()[i] == m.lists().view_map()[i]);
        assert(g0.lists().view_map().contains_key(i));
        assert(m.lists().view_map()[i] == g0.lists().view_map()[i]);
        assert(g0.lists().view_map()[i] == g0.lists().object(i));
    }
    assert forall|i: int| #[trigger] s.structs().live(i) implies s.structs().object(i) == g0.structs().object(i) by {
        assert(s.structs().view_map().contains_key(i));
        assert(s.structs().view_map()[i] == s.structs().object(i));
        assert(m.structs().view_map().contains_key(i));
        assert(s.structs().view_map()[i] == m.structs().view_map()[i]);
        assert(g0.structs().view_map().contains_key(i));
        assert(m.structs().view_map()[i] == g0.structs().view_map()[i]);
        assert(g0.structs().view_map()[i] == g0.structs().object(i));
    }
    assert forall|i: int| #[trigger] s.bytecodes().live(i) implies s.bytecodes().object(i) == g0.bytecodes().object(i) by {
        assert(s.bytecodes().view_map().contains_key(i));
        assert(s.bytecodes().view_map()[i] == s.bytecodes().object(i));
        assert(m.bytecodes().view_map().contains_key(i));
        assert(s.bytecodes().view_map()[i] == m.bytecodes().view_map()[i]);
        assert(g0.bytecodes().view_map().contains_key(i));
        assert(m.bytecodes().view_map()[i] == g0.bytecodes().view_map()[i]);
        assert(g0.bytecodes().view_map()[i] == g0.bytecodes().object(i));
    }
    assert forall|i: int| #[trigger] s.customs().live(i) implies s.customs().object(i) == g0.customs().object(i) by {
        assert(s.customs().view_map().contains_key(i));
        assert(s.customs().view_map()[i] == s.customs().object(i));
        assert(m.customs().view_map().contains_key(i));
        assert(s.customs().view_map()[i] == m.customs().view_map()[i]);
        assert(g0.customs().view_map().contains_key(i));
        assert(m.customs().view_map()[i] == g0.customs().view_map()[i]);
        assert(g0.customs().view_map()[i] == g0.customs().object(i));
    }
}

/// A struct changed in place, while it keeps its fields distinct, leaves the manager well
/// formed.
pub proof fn lemma_struct_change_keeps_wf<'a, C>(
    before: MemoryManager<'a, C>,
    after: MemoryManager<'a, C>,
    idx: int,
    changed: StructVal,
)
    requires
        before.wf(),
        MemoryManager::same_but(before, after, ObjKind::Struct),
        after.structs().wf(),
        changed.wf(),
        after.structs().view_map() == before.structs().view_map().insert(idx, changed),
        forall|i: int| #[trigger] after.structs().live(i) == before.structs().live(i),
        forall|i: int|
            #[trigger] after.structs().live(i) ==> after.structs().color(i) == before.structs().color(i),
    ensures
        after.wf(),
{
    assert(after.kept_wf() == before.kept_wf());
    assert(after.symbols_wf() == before.symbols_wf());
    assert forall|k: ObjKind, i: int| k != ObjKind::String && #[trigger] after.live(k, i) implies after.color(k, i) == after.spec_reachable_color().spec_other() by {
        assert(before.live(k, i));
    }
}

/// `n`, or `u64::MAX` when `n` is larger.
pub open spec fn min_u64(n: nat) -> u64 {
    if n <= u64::MAX {
        n as u64
    } else {
        u64::MAX
    }
}

/// The store of a kind of objects that the set of values to keep reachable names.
pub open spec fn kind_of(kind: GcKind) -> ObjKind {
    match kind {
        GcKind::String => ObjKind::String,
        GcKind::MutableBox => ObjKind::MutableBox,
        GcKind::List => ObjKind::List,
        GcKind::Struct => ObjKind::Struct,
        GcKind::ByteCode => ObjKind::ByteCode,
        GcKind::Custom => ObjKind::Custom,
    }
}

/// Recoloring one slot of one store gives a manager `recolored` from the one before.
proof fn lemma_recolored<'a, C>(before: MemoryManager<'a, C>, after: MemoryManager<'a, C>, k: ObjKind, i: int, c: Color)
    requires
        before.stores_wf(),
        after.stores_wf(),
        after.fixed() == before.fixed(),
        after.kept_set() == before.kept_set(),
        before.live(k, i),
        before.color(k, i) != c,
        k != ObjKind::String ==> after.strings() == before.strings(),
        k != ObjKind::MutableBox ==> after.boxes() == before.boxes(),
        k != ObjKind::List ==> after.lists() == before.lists(),
        k != ObjKind::Struct ==> after.structs() == before.structs(),
        k != ObjKind::ByteCode ==> after.bytecodes() == before.bytecodes(),
        k != ObjKind::Custom ==> after.customs() == before.customs(),
        k == ObjKind::String ==> after.strings().slots() == before.strings().slots().update(i, ValWithColor { inner: before.strings().slots()[i].inner, color: c }),
        k == ObjKind::MutableBox ==> after.boxes().slots() == before.boxes().slots().update(i, ValWithColor { inner: before.boxes().slots()[i].inner, color: c }),
        k == ObjKind::List ==> after.lists().slots() == before.lists().slots().update(i, ValWithColor { inner: before.lists().slots()[i].inner, color: c }),
        k == ObjKind::Struct ==> after.structs().slots() == before.structs().slots().update(i, ValWithColor { inner: before.structs().slots()[i].inner, color: c }),
        k == ObjKind::ByteCode ==> after.bytecodes().slots() == before.bytecodes().slots().update(i, ValWithColor { inner: before.bytecodes().slots()[i].inner, color: c }),
        k == ObjKind::Custom ==> after.customs().slots() == before.customs().slots().update(i, ValWithColor { inner: before.customs().slots()[i].inner, color: c }),
    ensures
        recolored(before, after, k, i, c),
{
    let oc = before.color(k, i);
    match k {
        ObjKind::String => {
            lemma_count_recolor(before.strings().slots(), i, ValWithColor { inner: before.strings().slots()[i].inner, color: c }, oc);
            assert(after.strings().view_map() =~= before.strings().view_map());
        },
        ObjKind::MutableBox => {
            lemma_count_recolor(before.boxes().slots(), i, ValWithColor { inner: before.boxes().slots()[i].inner, color: c }, oc);
            assert(after.boxes().view_map() =~= before.boxes().view_map());
        },
        ObjKind::List => {
            lemma_count_recolor(before.lists().slots(), i, ValWithColor { inner: before.lists().slots()[i].inner, color: c }, oc);
            assert(after.lists().view_map() =~= before.lists().view_map());
        },
        ObjKind::Struct => {
            lemma_count_recolor(before.structs().slots(), i, ValWithColor { inner: before.structs().slots()[i].inner, color: c }, oc);
            assert(after.structs().view_map() =~= before.structs().view_map());
        },
        ObjKind::ByteCode => {
            lemma_count_recolor(before.bytecodes().slots(), i, ValWithColor { inner: before.bytecodes().slots()[i].inner, color: c }, oc);
            assert(after.bytecodes().view_map() =~= before.bytecodes().view_map());
        },
        ObjKind::Custom => {
            lemma_count_recolor(before.customs().slots(), i, ValWithColor { inner: before.customs().slots()[i].inner, color: c }, oc);
            assert(after.customs().view_map() =~= before.customs().view_map());
        },
    }
}

/// After recoloring a live slot of another color, the store differs from `before` in that
/// slot's color alone.
proof fn lemma_recolor<T>(before: ObjectStore<T>, after: ObjectStore<T>, i: int, c: Color)
    requires
        before.live(i),
        before.color(i) != c,
        after.slots().len() == before.slots().len(),
        after.view_map() == before.view_map(),
        after.color(i) == c,
        forall|j: int|
            #![trigger after.slots()[j]]
            0 <= j < before.slots().len() && j != i ==> after.slots()[j] == before.slots()[j],
    ensures
        after.slots() == before.slots().update(i, ValWithColor { inner: before.slots()[i].inner, color: c }),
        count_with_color(after.slots(), before.color(i)) + 1 == count_with_color(before.slots(), before.color(i)),
        forall|j: int| #[trigger] after.live(j) == before.live(j),
        forall|j: int| #[trigger] after.live(j) ==> after.object(j) == before.object(j),
{
    assert(before.view_map().contains_key(i));
    assert(after.view_map().contains_key(i));
    assert(after.live(i));
    assert(after.object(i) == after.view_map()[i]);
    assert(after.slots() =~= before.slots().update(i, ValWithColor { inner: before.slots()[i].inner, color: c }));
    lemma_count_recolor(before.slots(), i, ValWithColor { inner: before.slots()[i].inner, color: c }, before.color(i));
    assert forall|j: int| #[trigger] after.live(j) == before.live(j) by {
        if j != i && 0 <= j < before.slots().len() {
            assert(after.slots()[j] == before.slots()[j]);
        }
    }
}

/// After an insert, the new slot is live and every other slot is as it was.
proof fn lemma_insert_live<T>(before: ObjectStore<T>, after: ObjectStore<T>, i: int)
    requires
        forall|j: int|
            #![trigger after.slots()[j]]
            0 <= j < before.slots().len() && j != i ==> after.slots()[j] == before.slots()[j],
        after.slots().len() == before.slots().len() || (after.slots().len() == before.slots().len()
            + 1 && i == before.slots().len()),
    ensures
        forall|j: int| j != i ==> (#[trigger] after.live(j) <==> before.live(j)),
        forall|j: int| j != i && #[trigger] after.live(j) ==> after.color(j) == before.color(j) && after.object(j) == before.object(j),
{
    assert forall|j: int| j != i implies (#[trigger] after.live(j) <==> before.live(j)) by {
        if 0 <= j < before.slots().len() {
            assert(after.slots()[j] == before.slots()[j]);
        }
    }
    assert forall|j: int| j != i && #[trigger] after.live(j) implies after.color(j) == before.color(j) && after.object(j) == before.object(j) by {
        if 0 <= j < before.slots().len() {
            assert(after.slots()[j] == before.slots()[j]);
        }
    }
}

} // verus!
