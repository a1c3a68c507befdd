use vstd::prelude::*;

verus! {

#[derive(Debug, PartialEq, Eq, Structural, Clone, Copy)]
pub enum KeyState {
    Pressed,
    Released,
}

#[derive(Debug, PartialEq, Eq, Structural, Clone, Copy)]
pub enum KeyCode {
    W,
    S,
    A,
    D,
    H,
    J,
    K,
    L,
    E,
    I,
    Key1,
    Key2,
    Escape,
    Unknown,
}

/// A key going down or up.
#[derive(Debug, Clone, Copy)]
pub struct KeyInput {
    pub vk: KeyCode,
    pub state: KeyState,
}

/// A stack of at most nine pending key inputs. Slot 0 of the buffer is
/// never filled; slots 1 to `index` hold the inputs, oldest first.
pub struct InputBuffer {
    buf: [Option<KeyInput>; 10],
    index: u8,
    len: u8,
}

/// How many inputs the buffer holds at most.
pub open spec fn input_capacity() -> nat {
    9
}

impl View for InputBuffer {
    type V = Seq<KeyInput>;

    closed spec fn view(&self) -> Seq<KeyInput> {
        Seq::new(self.index as nat, |i: int| self.buf@[i + 1]->Some_0)
    }
}

impl InputBuffer {
    pub closed spec fn wf(&self) -> bool {
        &&& self.len == 10
        &&& self.index < 10
        &&& self.buf@[0] is None
        &&& forall|i: int| 1 <= i <= self.index ==> #[trigger] self.buf@[i] is Some
        &&& forall|i: int| self.index < i < 10 ==> #[trigger] self.buf@[i] is None
    }

    /// Puts an input on top of the stack.
    pub fn push(&mut self, e: KeyInput)
        requires
            old(self).wf(),
            old(self)@.len() < input_capacity(),
        ensures
            final(self).wf(),
            final(self)@ == old(self)@.push(e),
    {
        let ghost before = *self;
        let slot = (self.index + 1) as usize;
        self.buf[slot] = Some(e);
        self.index = self.index + 1;
        proof {
            assert(self@ =~= before@.push(e));
        }
    }

    /// Takes the input on top of the stack, `None` when it is empty.
    pub fn pop(&mut self) -> (r: Option<KeyInput>)
        requires
            old(self).wf(),
        ensures
            final(self).wf(),
            old(self)@.len() == 0 ==> r is None && final(self)@ == old(self)@,
            old(self)@.len() > 0 ==> r == Some(old(self)@.last()) && final(self)@ == old(self)@.drop_last(),
    {
        let ghost before = *self;
        let slot = self.index as usize;
        let val = self.buf[slot];
        self.buf[slot] = None;
        self.index = if self.index > 0 { self.index - 1 } else { 0 };
        proof {
            if before.index > 0 {
                assert(self@ =~= before@.drop_last());
            } else {
                assert(self@ =~= before@);
            }
        }
        val
    }
}

impl Default for InputBuffer {
    fn default() -> (b: Self)
        ensures
            b.wf(),
            b@ == Seq::<KeyInput>::empty(),
    {
        let b = InputBuffer { buf: [None; 10], index: 0, len: 10 };
        proof {
            assert(b@ =~= Seq::<KeyInput>::empty());
        }
        b
    }
}

/// Popping right after a push gives back the pushed input and leaves the
/// stack as it was before the push.
pub proof fn law_pop_undoes_push(inputs: Seq<KeyInput>, e: KeyInput)
    ensures
        inputs.push(e).len() > 0,
        inputs.push(e).last() == e,
        inputs.push(e).drop_last() == inputs,
{
    assert(inputs.push(e).drop_last() =~= inputs);
}

} // verus!
