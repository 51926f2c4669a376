use vstd::prelude::*;
use crate::error::ExecError;
use crate::key::Pubkey;
use crate::program::EntryPoint;

verus! {

/// One deployment: a program identifier and the entry point behind it.
#[derive(Clone, Copy, Debug)]
pub struct Deployment {
    pub program_id: Pubkey,
    pub entry: EntryPoint,
}

/// An append-only mapping from program identifiers to entry points.
#[derive(Debug)]
pub struct ProgramRegistry {
    deployed: Vec<Deployment>,
}

/// The entry point that the youngest deployment under `id` gives, if any.
pub open spec fn lookup(deployed: Seq<Deployment>, id: Pubkey) -> Option<EntryPoint>
    decreases deployed.len(),
{
    if deployed.len() == 0 {
        None
    } else if deployed.last().program_id == id {
        Some(deployed.last().entry)
    } else {
        lookup(deployed.drop_last(), id)
    }
}

impl View for ProgramRegistry {
    type V = Map<Pubkey, EntryPoint>;

    closed spec fn view(&self) -> Map<Pubkey, EntryPoint> {
        Map::new(
            |id: Pubkey| lookup(self.deployed@, id) is Some,
            |id: Pubkey| lookup(self.deployed@, id)->Some_0,
        )
    }
}

impl ProgramRegistry {
    /// A registry without programs.
    pub fn new() -> (r: ProgramRegistry)
        ensures
            r@ == Map::<Pubkey, EntryPoint>::empty(),
    {
        let r = ProgramRegistry { deployed: Vec::new() };
        assert(r@ =~= Map::<Pubkey, EntryPoint>::empty());
        r
    }

    /// The entry point of the program, or `UnknownProgram`.
    pub fn resolve(&self, program_id: &Pubkey) -> (r: Result<EntryPoint, ExecError>)
        ensures
            r == if self@.contains_key(*program_id) {
                Ok::<EntryPoint, ExecError>(self@[*program_id])
            } else {
                Err::<EntryPoint, ExecError>(ExecError::UnknownProgram)
            },
    {
        let mut i: usize = self.deployed.len();
        assert(self.deployed@.take(i as int) =~= self.deployed@);
        while i > 0
            invariant
                i <= self.deployed.len(),
                lookup(self.deployed@, *program_id) == lookup(self.deployed@.take(i as int), *program_id),
            decreases i,
        {
            i -= 1;
            assert(self.deployed@.take(i + 1).drop_last() =~= self.deployed@.take(i as int));
            if self.deployed[i].program_id.equals(program_id) {
                return Ok(self.deployed[i].entry);
            }
        }
        Err(ExecError::UnknownProgram)
    }

    /// Deploys a program, as the step outside this core does. The mapping only
    /// grows: an identifier that is already taken is refused, and the registry
    /// is left as it was.
    pub fn register(&mut self, program_id: Pubkey, entry: EntryPoint) -> (added: bool)
        ensures
            added == !old(self)@.contains_key(program_id),
            final(self)@ == if added {
                old(self)@.insert(program_id, entry)
            } else {
                old(self)@
            },
            forall|id: Pubkey|
                old(self)@.contains_key(id) ==> final(self)@.contains_key(id) && final(self)@[id] == #[trigger] old(
                    self,
                )@[id],
    {
        if self.resolve(&program_id).is_ok() {
            return false;
        }
        let ghost before = self.deployed@;
        self.deployed.push(Deployment { program_id, entry });
        proof {
            assert(self.deployed@.drop_last() =~= before);
            assert(self@ =~= old(self)@.insert(program_id, entry));
        }
        true
    }
}

} // verus!
