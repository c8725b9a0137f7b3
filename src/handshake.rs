use vstd::prelude::*;
use crate::command::Command;
use crate::resp::{command_items, decimal, items_view, write_decimal};

verus! {

/// What a connection sends to the server before any user command.
pub struct ConnectionConfig {
    /// The protocol version asked for with HELLO: 2 or 3.
    pub protocol_version: u8,
    pub username: Option<Vec<u8>>,
    pub password: Option<Vec<u8>>,
    pub client_name: Option<Vec<u8>>,
    pub database: usize,
    /// Whether client-side caching invalidations are asked for.
    pub tracking: bool,
}

pub open spec fn word_hello() -> Seq<u8> {
    seq![0x48u8, 0x45, 0x4c, 0x4c, 0x4f]
}

pub open spec fn word_auth() -> Seq<u8> {
    seq![0x41u8, 0x55, 0x54, 0x48]
}

pub open spec fn word_default() -> Seq<u8> {
    seq![0x64u8, 0x65, 0x66, 0x61, 0x75, 0x6c, 0x74]
}

pub open spec fn word_client() -> Seq<u8> {
    seq![0x43u8, 0x4c, 0x49, 0x45, 0x4e, 0x54]
}

pub open spec fn word_setname() -> Seq<u8> {
    seq![0x53u8, 0x45, 0x54, 0x4e, 0x41, 0x4d, 0x45]
}

pub open spec fn word_select() -> Seq<u8> {
    seq![0x53u8, 0x45, 0x4c, 0x45, 0x43, 0x54]
}

pub open spec fn word_tracking() -> Seq<u8> {
    seq![0x54u8, 0x52, 0x41, 0x43, 0x4b, 0x49, 0x4e, 0x47]
}

pub open spec fn word_on() -> Seq<u8> {
    seq![0x4fu8, 0x4e]
}

/// `HELLO <version>`, with `AUTH <username> <password>` when a password is
/// set; the username is `default` when none is set.
pub open spec fn hello_items(cfg: ConnectionConfig) -> Seq<Seq<u8>> {
    seq![word_hello(), decimal(cfg.protocol_version as nat)] + match cfg.password {
        Some(p) => seq![
            word_auth(),
            match cfg.username {
                Some(u) => u@,
                None => word_default(),
            },
            p@,
        ],
        None => Seq::empty(),
    }
}

/// The commands of the handshake, in order: HELLO (with AUTH), then CLIENT
/// SETNAME if a name is set, SELECT if the database is not 0, and CLIENT
/// TRACKING ON if tracking is asked for.
pub open spec fn handshake(cfg: ConnectionConfig) -> Seq<Seq<Seq<u8>>> {
    seq![hello_items(cfg)] + match cfg.client_name {
        Some(n) => seq![seq![word_client(), word_setname(), n@]],
        None => Seq::empty(),
    } + if cfg.database > 0 {
        seq![seq![word_select(), decimal(cfg.database as nat)]]
    } else {
        Seq::empty()
    } + if cfg.tracking {
        seq![seq![word_client(), word_tracking(), word_on()]]
    } else {
        Seq::empty()
    }
}

/// The items of each command of a sequence.
pub open spec fn commands_items(cmds: Seq<Command>) -> Seq<Seq<Seq<u8>>> {
    cmds.map_values(|c: Command| command_items(c))
}

fn copy_vec(a: &Vec<u8>) -> (r: Vec<u8>)
    ensures
        r@ == a@,
{
    let mut r: Vec<u8> = Vec::new();
    let mut i: usize = 0;
    while i < a.len()
        invariant
            i <= a@.len(),
            r@ == a@.subrange(0, i as int),
        decreases a@.len() - i,
    {
        r.push(a[i]);
        i = i + 1;
        proof {
            assert(r@ =~= a@.subrange(0, i as int));
        }
    }
    proof {
        assert(a@.subrange(0, a@.len() as int) =~= a@);
    }
    r
}

fn make(name: Vec<u8>, args: Vec<Vec<u8>>) -> (r: Command)
    ensures
        command_items(r) == seq![name@] + items_view(args@),
{
    let r = Command { name, args, retry_on_error: false };
    proof {
        assert(r.args_view() =~= items_view(args@));
    }
    r
}

fn number(n: usize) -> (r: Vec<u8>)
    ensures
        r@ == decimal(n as nat),
{
    let mut r: Vec<u8> = Vec::new();
    write_decimal(&mut r, n);
    proof {
        assert(r@ =~= decimal(n as nat));
    }
    r
}

fn client_word() -> (r: Vec<u8>)
    ensures
        r@ == word_client(),
{
    let r = vec![0x43u8, 0x4c, 0x49, 0x45, 0x4e, 0x54];
    proof {
        assert(r@ =~= word_client());
    }
    r
}

fn push_command(out: &mut Vec<Command>, c: Command, items: Ghost<Seq<Seq<u8>>>)
    requires
        command_items(c) == items@,
    ensures
        commands_items(final(out)@) == commands_items(old(out)@).push(items@),
{
    out.push(c);
    proof {
        assert(commands_items(final(out)@) =~= commands_items(old(out)@).push(items@));
    }
}

/// The commands a new connection sends before user traffic: the handshake
/// in its fixed order, then `replay`: the commands that restore the
/// subscriptions held (see `Subscriptions::replay_commands`).
pub fn startup_commands(cfg: &ConnectionConfig, replay: Vec<Command>) -> (r: Vec<Command>)
    ensures
        commands_items(r@) == handshake(*cfg) + commands_items(replay@),
{
    let ghost old_replay = replay@;
    let mut out: Vec<Command> = Vec::new();
    let mut hello: Vec<Vec<u8>> = Vec::new();
    hello.push(number(cfg.protocol_version as usize));
    match &cfg.password {
        Some(p) => {
            let auth = vec![0x41u8, 0x55, 0x54, 0x48];
            let user = match &cfg.username {
                Some(u) => copy_vec(u),
                None => vec![0x64u8, 0x65, 0x66, 0x61, 0x75, 0x6c, 0x74],
            };
            proof {
                assert(auth@ =~= word_auth());
                if cfg.username is None {
                    assert(user@ =~= word_default());
                }
            }
            hello.push(auth);
            hello.push(user);
            hello.push(copy_vec(p));
        },
        None => {},
    }
    let hello_name = vec![0x48u8, 0x45, 0x4c, 0x4c, 0x4f];
    proof {
        assert(hello_name@ =~= word_hello());
        assert(seq![hello_name@] + items_view(hello@) =~= hello_items(*cfg));
    }
    push_command(&mut out, make(hello_name, hello), Ghost(hello_items(*cfg)));
    let ghost after_hello = commands_items(out@);
    match &cfg.client_name {
        Some(n) => {
            let setname = vec![0x53u8, 0x45, 0x54, 0x4e, 0x41, 0x4d, 0x45];
            let mut args: Vec<Vec<u8>> = Vec::new();
            args.push(setname);
            args.push(copy_vec(n));
            let ghost items = seq![word_client(), word_setname(), n@];
            proof {
                assert(seq![word_client()] + items_view(args@) =~= items);
            }
            push_command(&mut out, make(client_word(), args), Ghost(items));
        },
        None => {},
    }
    let ghost after_name = commands_items(out@);
    if cfg.database > 0 {
        let select = vec![0x53u8, 0x45, 0x4c, 0x45, 0x43, 0x54];
        let mut args: Vec<Vec<u8>> = Vec::new();
        args.push(number(cfg.database));
        let ghost items = seq![word_select(), decimal(cfg.database as nat)];
        proof {
            assert(select@ =~= word_select());
            assert(seq![select@] + items_view(args@) =~= items);
        }
        push_command(&mut out, make(select, args), Ghost(items));
    }
    let ghost after_select = commands_items(out@);
    if cfg.tracking {
        let mut args: Vec<Vec<u8>> = Vec::new();
        args.push(vec![0x54u8, 0x52, 0x41, 0x43, 0x4b, 0x49, 0x4e, 0x47]);
        args.push(vec![0x4fu8, 0x4e]);
        let ghost items = seq![word_client(), word_tracking(), word_on()];
        proof {
            assert(seq![word_client()] + items_view(args@) =~= items);
        }
        push_command(&mut out, make(client_word(), args), Ghost(items));
    }
    let ghost hs = commands_items(out@);
    proof {
        assert(hs =~= handshake(*cfg));
    }
    let ghost before = out@;
    let mut replay = replay;
    out.append(&mut replay);
    proof {
        assert(out@ == before + old_replay);
        assert(commands_items(out@) =~= hs + commands_items(old_replay));
    }
    out
}

} // verus!
