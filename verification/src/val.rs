//! Values as a program that runs the machine reads them: a value tied to the machine's borrow,
//! so that no collection runs while it is read.
use core::marker::PhantomData;

use vstd::prelude::*;

use crate::equality::{list_items, string_text};
use crate::memory::{ListVal, StructVal, UnsafeVal, truthy};
use crate::natives::spec_kind_name;
use crate::symbol::Symbol;
use crate::vm::{symbol_named, Vm};

verus! {

/// A value of the machine, for as long as `'v`.
#[derive(Copy, Clone, Debug)]
pub struct Val<'v> {
    inner: UnsafeVal,
    _lifetime: PhantomData<&'v ()>,
}

impl<'v> Val<'v> {
    /// The value held.
    pub closed spec fn value(&self) -> UnsafeVal {
        self.inner
    }

    /// A `Val` of `v`. The caller is to see that the objects `v` names are not collected while
    /// the `Val` lives.
    pub fn from_unsafe_val(v: UnsafeVal) -> (r: Val<'v>)
        ensures
            r.value() == v,
    {
        Val { inner: v, _lifetime: PhantomData }
    }

    /// Return the underlying [`UnsafeVal`].
    pub fn as_unsafe_val(self) -> (r: UnsafeVal)
        ensures
            r == self.value(),
    {
        self.inner
    }

    /// Returns `true` if `self` is a void value.
    pub fn is_void(self) -> (r: bool)
        ensures
            r == (self.value() is Void),
    {
        match self.inner {
            UnsafeVal::Void => true,
            _ => false,
        }
    }

    /// Returns `true` if `self` is not `false` or `void`.
    pub fn is_truthy(self) -> (r: bool)
        ensures
            r == truthy(self.value()),
    {
        self.inner.is_truthy()
    }

    /// The bool held, or `Err(self)` if `self` is not a bool.
    pub fn try_bool(self) -> (r: Result<bool, Self>)
        ensures
            match self.value() {
                UnsafeVal::Bool(x) => r == Ok::<bool, Self>(x),
                _ => r == Err::<bool, Self>(self),
            },
    {
        match self.inner {
            UnsafeVal::Bool(x) => Ok(x),
            _ => Err(self),
        }
    }

    /// The int held, or `Err(self)` if `self` is not an int.
    pub fn try_int(self) -> (r: Result<i64, Self>)
        ensures
            match self.value() {
                UnsafeVal::Int(x) => r == Ok::<i64, Self>(x),
                _ => r == Err::<i64, Self>(self),
            },
    {
        match self.inner {
            UnsafeVal::Int(x) => Ok(x),
            _ => Err(self),
        }
    }

    /// The symbol held, or `Err(self)` if `self` is not a symbol.
    pub fn try_symbol(self) -> (r: Result<Symbol, Self>)
        ensures
            match self.value() {
                UnsafeVal::Symbol(x) => r == Ok::<Symbol, Self>(x),
                _ => r == Err::<Symbol, Self>(self),
            },
    {
        match self.inner {
            UnsafeVal::Symbol(x) => Ok(x),
            _ => Err(self),
        }
    }

    /// The text of the string held (empty when it is gone), or `Err(self)` if `self` is not a
    /// string.
    pub fn try_str<'m, 'a, C>(self, vm: &'m Vm<'a, C>) -> (r: Result<&'m str, Self>)
        ensures
            match self.value() {
                UnsafeVal::String(id) => r matches Ok(t) && t@ == string_text(vm.objects(), id.idx),
                _ => r == Err::<&str, Self>(self),
            },
    {
        match self.inner {
            UnsafeVal::String(id) => Ok(vm.memory().get_str(id)),
            _ => Err(self),
        }
    }

    /// The items of the list held (none when it is gone), or `Err(self)` if `self` is not a
    /// list.
    pub fn try_list<'m, 'a, C>(self, vm: &'m Vm<'a, C>) -> (r: Result<&'m ListVal, Self>)
        requires
            vm.wf(),
        ensures
            match self.value() {
                UnsafeVal::List(id) => r matches Ok(l) && l@ == list_items(vm.objects(), id.idx),
                _ => r == Err::<&ListVal, Self>(self),
            },
    {
        match self.inner {
            UnsafeVal::List(id) => {
                proof {
                    vm.lemma_memory_wf();
                }
                Ok(vm.memory().get_list(id))
            },
            _ => Err(self),
        }
    }

    /// Returns `true` if `self` is a struct.
    pub fn is_struct(self) -> (r: bool)
        ensures
            r == (self.value() is Struct),
    {
        match self.inner {
            UnsafeVal::Struct(_) => true,
            _ => false,
        }
    }

    /// Returns `true` if `self` is a custom value.
    pub fn is_custom(self) -> (r: bool)
        ensures
            r == (self.value() is Custom),
    {
        match self.inner {
            UnsafeVal::Custom(_) => true,
            _ => false,
        }
    }

    /// The struct held, or `Err(self)` if `self` is not a struct.
    pub fn try_struct<'m, 'a, C>(self, vm: &'m Vm<'a, C>) -> (r: Result<&'m StructVal, Self>)
        requires
            self.value() matches UnsafeVal::Struct(id) ==> vm.objects().structs().live(id.idx as int),
        ensures
            match self.value() {
                UnsafeVal::Struct(id) => r matches Ok(s) && *s == vm.objects().structs().object(id.idx as int),
                _ => r == Err::<&StructVal, Self>(self),
            },
    {
        match self.inner {
            UnsafeVal::Struct(id) => Ok(vm.memory().get_struct(id)),
            _ => Err(self),
        }
    }

    /// The field `name` of the struct held (`None` when it has no such field), or `Err(self)` if
    /// `self` is not a struct or `name` was never interned.
    pub fn try_struct_get<'a, C>(self, vm: &'v Vm<'a, C>, name: &str) -> (r: Result<Option<Val<'v>>, Val<'v>>)
        requires
            vm.wf(),
            self.value() matches UnsafeVal::Struct(id) ==> vm.objects().structs().live(id.idx as int),
        ensures
            match self.value() {
                UnsafeVal::Struct(id) => match symbol_named(vm.objects().spec_vm_id(), vm.state().symbols, name@) {
                    Some(sym) => {
                        let m = vm.objects().structs().object(id.idx as int).view_map();
                        r matches Ok(f) && (match f {
                            Some(v) => m.contains_key(sym) && v.value() == m[sym],
                            None => !m.contains_key(sym),
                        })
                    },
                    None => r == Err::<Option<Val<'v>>, Val<'v>>(self),
                },
                _ => r == Err::<Option<Val<'v>>, Val<'v>>(self),
            },
    {
        match self.inner {
            UnsafeVal::Struct(id) => {
                let strct = vm.memory().get_struct(id);
                let sym = match vm.get_symbol(name) {
                    Some(sym) => sym,
                    None => {
                        return Err(self);
                    },
                };
                proof {
                    vm.lemma_memory_wf();
                    assert(vm.objects().structs().view_map().contains_key(id.idx as int));
                }
                match strct.get(sym) {
                    Some(v) => Ok(Some(Val::from_unsafe_val(v))),
                    None => Ok(None),
                }
            },
            _ => Err(self),
        }
    }

    /// The value in the box held, or `Err(self)` if `self` is not a box.
    pub fn try_mutable_box_ref<'a, C>(self, vm: &'v Vm<'a, C>) -> (r: Result<Val<'v>, Val<'v>>)
        requires
            self.value() matches UnsafeVal::MutableBox(id) ==> vm.objects().boxes().live(id.idx as int),
        ensures
            match self.value() {
                UnsafeVal::MutableBox(id) => r matches Ok(v) && v.value() == vm.objects().boxes().object(id.idx as int),
                _ => r == Err::<Val<'v>, Val<'v>>(self),
            },
    {
        match self.inner {
            UnsafeVal::MutableBox(id) => Ok(Val::from_unsafe_val(*vm.memory().get_mutable_box(id))),
            _ => Err(self),
        }
    }

    /// The display name of the type held.
    pub fn kind_name(self) -> (r: &'static str)
        ensures
            r@ == spec_kind_name(self.value()),
    {
        crate::natives::kind_name(self.inner)
    }
}

impl Val<'static> {
    /// A `void` value.
    pub fn new_void() -> (r: Val<'static>)
        ensures
            r.value() is Void,
    {
        Val::from_unsafe_val(UnsafeVal::Void)
    }

    /// A `bool` value.
    pub fn new_bool(x: bool) -> (r: Val<'static>)
        ensures
            r.value() == UnsafeVal::Bool(x),
    {
        Val::from_unsafe_val(UnsafeVal::Bool(x))
    }

    /// An `int` value.
    pub fn new_int(x: i64) -> (r: Val<'static>)
        ensures
            r.value() == UnsafeVal::Int(x),
    {
        Val::from_unsafe_val(UnsafeVal::Int(x))
    }
}

} // verus!
