//! Named text registers `a` to `z`.

use vstd::prelude::*;

verus! {

/// A register name: one lowercase ascii letter.
#[derive(Debug, Clone, Copy, PartialEq, Eq, Structural)]
pub struct RegisterKey(u8);

impl RegisterKey {
    pub closed spec fn index_val(self) -> int {
        self.0 as int
    }

    /// The key for a lowercase letter; other characters name no register.
    pub fn from_char(key: u8) -> (r: Option<RegisterKey>)
        ensures
            r is Some <==> (0x61 <= key && key <= 0x7a),
            r is Some ==> r->Some_0.index_val() == key - 0x61,
    {
        if key >= 0x61u8 && key <= 0x7au8 {
            Some(RegisterKey(key - 0x61u8))
        } else {
            None
        }
    }

    /// The key a one-letter text names.
    pub fn from_str(key: &[u8]) -> (r: Option<RegisterKey>)
        ensures
            r is Some ==> key@.len() == 1 && 0x61 <= key@[0] <= 0x7a
                && r->Some_0.index_val() == key@[0] - 0x61,
            key@.len() != 1 ==> r is None,
    {
        if key.len() == 1 {
            Self::from_char(key[0])
        } else {
            None
        }
    }

    /// The register's letter.
    pub fn as_u8(&self) -> (r: u8)
        requires
            self.index_val() < 26,
        ensures
            r == self.index_val() + 0x61,
            0x61 <= r <= 0x7a,
    {
        self.0 + 0x61u8
    }
}

/// The twenty-six registers.
pub struct RegisterCollection {
    registers: Vec<Vec<u8>>,
}

impl RegisterCollection {
    pub closed spec fn regs(&self) -> Seq<Seq<u8>> {
        self.registers@.map_values(|r: Vec<u8>| r@)
    }

    pub open spec fn wf(&self) -> bool {
        self.regs().len() == 26
    }

    pub fn new() -> (r: Self)
        ensures
            r.wf(),
            forall|i: int| 0 <= i < 26 ==> (#[trigger] r.regs()[i]).len() == 0,
    {
        let mut registers: Vec<Vec<u8>> = Vec::new();
        let mut i: usize = 0;
        while i < 26
            invariant
                i <= 26,
                registers@.len() == i,
                forall|k: int| 0 <= k < i ==> (#[trigger] registers@[k])@.len() == 0,
            decreases 26 - i,
        {
            let fresh: Vec<u8> = Vec::new();
            registers.push(fresh);
            i = i + 1;
        }
        let r = Self { registers };
        proof {
            assert(forall|k: int| 0 <= k < 26 ==> (#[trigger] r.regs()[k]).len() == 0);
        }
        r
    }

    /// Read a register's text.
    pub fn get(&self, key: RegisterKey) -> (r: &Vec<u8>)
        requires
            self.wf(),
            key.index_val() < 26,
        ensures
            r@ == self.regs()[key.index_val()],
    {
        let RegisterKey(i) = key;
        &self.registers[i as usize]
    }

    /// Replace a register's text.
    pub fn set(&mut self, key: RegisterKey, value: &[u8])
        requires
            old(self).wf(),
            key.index_val() < 26,
        ensures
            final(self).wf(),
            final(self).regs() == old(self).regs().update(key.index_val(), value@),
    {
        let RegisterKey(i) = key;
        let owned = crate::text::copy_range(value, 0, value.len());
        proof {
            assert(owned@ =~= value@);
        }
        self.registers.set(i as usize, owned);
        proof {
            assert(self.regs() =~= old(self).regs().update(key.index_val(), value@));
        }
    }
}

} // verus!
