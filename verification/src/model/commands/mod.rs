pub mod create_command;
pub mod delete_command;
pub mod insert_command;
pub mod read_command;
pub mod save_command;
pub mod select_command;

pub use create_command::Create;
pub use delete_command::Delete;
pub use insert_command::Insert;
pub use read_command::Read;
pub use save_command::Save;
pub use select_command::Select;

use vstd::prelude::*;

verus! {

/// A statement bound to the database or table it changes, ready to be executed.
pub trait Command: Sized {
    /// What executing needs of the database or table it is bound to.
    spec fn ready(&self) -> bool;

    /// Executes the statement.
    fn execute(self) -> crate::errors::ExecutionResult<()>
        requires
            self.ready(),
    ;
}

} // verus!
