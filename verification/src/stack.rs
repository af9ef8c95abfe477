//! The bounded stack of the virtual machine. Each entry may carry a number, a pointer
//! to a variable, and the name of the variable that it defines.
use vstd::prelude::*;
use crate::text::{decimal, push_decimal};

verus! {

/// Why a stack operation failed.
#[derive(Debug, PartialEq, Eq, Structural)]
pub enum StackError {
    /// No entry defines the variable, or that entry holds no number.
    Pointer,
    /// The stack is empty.
    GetData,
    /// The stack is full: its capacity, then its size.
    Stackoverflow(usize, usize),
}

/// The text that describes each `StackError`.
pub open spec fn stack_error_text(e: StackError) -> Seq<char> {
    match e {
        StackError::Pointer => "unable to get pointer data.."@,
        StackError::GetData => "unable to get data.."@,
        StackError::Stackoverflow(cap, size) => "Stack overflow error.. capacity "@ + decimal(
            cap as nat,
        ) + " , size "@ + decimal(size as nat) + " "@,
    }
}

impl StackError {
    /// The text that describes the error.
    pub fn message(&self) -> (s: String)
        ensures
            s@ == stack_error_text(*self),
    {
        match self {
            StackError::Pointer => String::from_str("unable to get pointer data.."),
            StackError::GetData => String::from_str("unable to get data.."),
            StackError::Stackoverflow(cap, size) => {
                let mut s = String::from_str("Stack overflow error.. capacity ");
                push_decimal(&mut s, *cap as u64);
                s.append(" , size ");
                push_decimal(&mut s, *size as u64);
                s.append(" ");
                s
            },
        }
    }
}

pub type StackResult<T> = Result<T, StackError>;

/// The name of the variable that an entry defines.
pub type VariableDef = Option<u8>;

/// The number that an entry holds.
pub type VMData = Option<i32>;

/// The variable that an entry points to.
pub type VariablePointer = Option<u8>;

/// One entry of the stack.
pub type StackData = (VariableDef, (VMData, VariablePointer));

/// A stack of at most `capacity` entries.
pub struct AlaybeyStack {
    stack_data: Vec<StackData>,
    stack_capacity: usize,
    stack_top: usize,
}

/// Index of the last entry that defines variable `ptr`, or -1.
pub open spec fn last_def_index(items: Seq<StackData>, ptr: u8) -> int
    decreases items.len(),
{
    if items.len() == 0 {
        -1
    } else if items.last().0 == Some(ptr) {
        items.len() - 1
    } else {
        last_def_index(items.drop_last(), ptr)
    }
}

/// The number held by the last entry that defines variable `ptr`.
pub open spec fn pointer_value(items: Seq<StackData>, ptr: u8) -> StackResult<i32> {
    let k = last_def_index(items, ptr);
    if k < 0 {
        Err(StackError::Pointer)
    } else {
        match items[k].1.0 {
            Some(v) => Ok(v),
            None => Err(StackError::Pointer),
        }
    }
}

impl AlaybeyStack {
    /// The entries, bottom first.
    pub closed spec fn items(&self) -> Seq<StackData> {
        self.stack_data@
    }

    /// The most entries the stack may hold.
    pub closed spec fn capacity(&self) -> nat {
        self.stack_capacity as nat
    }

    /// The size counter agrees with the entries, which do not exceed the capacity.
    pub closed spec fn wf(&self) -> bool {
        &&& self.stack_top == self.stack_data@.len()
        &&& self.stack_top <= self.stack_capacity
    }

    /// A well-formed stack holds at most its capacity.
    pub proof fn lemma_bounded(&self)
        requires
            self.wf(),
        ensures
            self.items().len() <= self.capacity(),
    {
    }

    /// An empty stack that holds at most `stack_size` entries.
    pub fn new(stack_size: usize) -> (s: Self)
        ensures
            s.wf(),
            s.items() == Seq::<StackData>::empty(),
            s.capacity() == stack_size,
    {
        AlaybeyStack {
            stack_data: Vec::with_capacity(stack_size),
            stack_capacity: stack_size,
            stack_top: 0,
        }
    }

    /// The number of entries.
    pub fn len(&self) -> (n: usize)
        requires
            self.wf(),
        ensures
            n == self.items().len(),
    {
        self.stack_top
    }

    /// Pushes an entry; fails, changing nothing, when the stack is full.
    pub fn push_data(&mut self, stack_data: StackData) -> (r: StackResult<()>)
        requires
            old(self).wf(),
        ensures
            final(self).wf(),
            final(self).capacity() == old(self).capacity(),
            old(self).items().len() == old(self).capacity() ==> r == Err::<(), StackError>(
                StackError::Stackoverflow(
                    old(self).capacity() as usize,
                    old(self).items().len() as usize,
                ),
            ) && final(self).items() == old(self).items(),
            old(self).items().len() < old(self).capacity() ==> r is Ok && final(self).items()
                == old(self).items().push(stack_data),
    {
        if self.stack_top == self.stack_capacity {
            return Err(StackError::Stackoverflow(self.stack_capacity, self.stack_top));
        }
        self.stack_data.push(stack_data);
        self.stack_top += 1;
        Ok(())
    }

    /// Removes and returns the top entry of a stack that is not empty.
    pub fn pop_data_(&mut self) -> (r: StackResult<StackData>)
        requires
            old(self).wf(),
            old(self).items().len() > 0,
        ensures
            final(self).wf(),
            final(self).capacity() == old(self).capacity(),
            r == Ok::<StackData, StackError>(old(self).items().last()),
            final(self).items() == old(self).items().drop_last(),
    {
        self.stack_top -= 1;
        match self.stack_data.pop() {
            Some(data) => Ok(data),
            None => Err(StackError::GetData),
        }
    }

    /// The top entry, or `GetData` when the stack is empty.
    pub fn peek_data_(&self) -> (r: StackResult<StackData>)
        requires
            self.wf(),
        ensures
            self.items().len() == 0 ==> r == Err::<StackData, StackError>(StackError::GetData),
            self.items().len() > 0 ==> r == Ok::<StackData, StackError>(self.items().last()),
    {
        let n = self.stack_data.len();
        if n == 0 {
            Err(StackError::GetData)
        } else {
            Ok(self.stack_data[n - 1])
        }
    }

    /// The entry at position `i`, counting from the bottom.
    pub fn get(&self, i: usize) -> (e: StackData)
        requires
            self.wf(),
            i < self.items().len(),
        ensures
            e == self.items()[i as int],
    {
        self.stack_data[i]
    }

    /// The number held by the last entry that defines variable `ptr`.
    pub fn get_data_from_pointer_(&self, ptr: u8) -> (r: StackResult<i32>)
        requires
            self.wf(),
        ensures
            r == pointer_value(self.items(), ptr),
    {
        assert(self.items().take(self.items().len() as int) =~= self.items());
        self.get_data_from_pointer_below(ptr, self.stack_data.len())
    }

    /// The number held by the last entry that defines variable `ptr` among the lowest `n`.
    pub fn get_data_from_pointer_below(&self, ptr: u8, n: usize) -> (r: StackResult<i32>)
        requires
            self.wf(),
            n <= self.items().len(),
        ensures
            r == pointer_value(self.items().take(n as int), ptr),
    {
        let ghost items = self.stack_data@.take(n as int);
        let mut i = n;
        assert(items.take(i as int) =~= items);
        while i > 0 && self.stack_data[i - 1].0 != Some(ptr)
            invariant
                i <= n <= self.stack_data@.len(),
                items == self.stack_data@.take(n as int),
                last_def_index(items, ptr) == last_def_index(items.take(i as int), ptr),
            decreases i,
        {
            let ghost t = items.take(i as int);
            assert(t.drop_last() =~= items.take(i - 1));
            assert(t.last() == self.stack_data@[i - 1]);
            i = i - 1;
        }
        if i == 0 {
            assert(items.take(0) =~= Seq::<StackData>::empty());
            return Err(StackError::Pointer);
        }
        assert(items.take(i as int).last() == items[i - 1]);
        match self.stack_data[i - 1].1.0 {
            Some(v) => Ok(v),
            None => Err(StackError::Pointer),
        }
    }
}

/// Popping right after a push gives back the pushed entry and the stack as it was; peeking
/// sees the pushed entry.
pub proof fn lemma_push_then_pop(items: Seq<StackData>, e: StackData)
    ensures
        items.push(e).len() > 0,
        items.push(e).last() == e,
        items.push(e).drop_last() == items,
{
    assert(items.push(e).drop_last() =~= items);
}

} // verus!
