use vstd::prelude::*;

verus! {

/// A command as sent to the server: a name and an ordered list of
/// byte-string arguments.
#[derive(Debug)]
pub struct Command {
    pub name: Vec<u8>,
    pub args: Vec<Vec<u8>>,
    /// Whether the command may be sent again after a disconnection that
    /// happened before any reply to it arrived.
    pub retry_on_error: bool,
}

impl Command {
    /// The arguments as a sequence of byte sequences.
    pub open spec fn args_view(&self) -> Seq<Seq<u8>> {
        self.args@.map_values(|a: Vec<u8>| a@)
    }

    /// A command with the given name and no arguments.
    pub fn new(name: Vec<u8>) -> (r: Command)
        ensures
            r.name@ == name@,
            r.args@.len() == 0,
            !r.retry_on_error,
    {
        Command { name, args: Vec::new(), retry_on_error: false }
    }

    /// Appends one argument.
    pub fn arg(self, a: Vec<u8>) -> (r: Command)
        ensures
            r.name@ == self.name@,
            r.args@ == self.args@.push(a),
            r.retry_on_error == self.retry_on_error,
    {
        let mut c = self;
        c.args.push(a);
        c
    }

    /// Marks the command as safe to send again after a disconnection.
    pub fn retry_on_error(self, retry: bool) -> (r: Command)
        ensures
            r.name@ == self.name@,
            r.args@ == self.args@,
            r.retry_on_error == retry,
    {
        let mut c = self;
        c.retry_on_error = retry;
        c
    }
}

} // verus!
