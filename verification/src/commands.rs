//! The options of the `get` and `delay` commands: which arguments they take,
//! and the error each wrong argument list gets.

use vstd::prelude::*;
use vstd::string::*;

use crate::pico_interface::PORT_FORMAT_ERROR_MESSAGE;
use crate::text::{
    lowercase, parse_unsigned, parsed_u32, parsed_u8, parsed_unsigned, str_equals, to_lowercase,
    views,
};

verus! {

/// How the `get` command is called.
pub const GET_COMMAND_FORMAT: &'static str = "get [port] [file] [optional args]...";

/// The optional arguments of the `get` command.
pub const GET_COMMAND_ARGS: &'static str =
"                --useprev
                    look for previous record in
                    specified file and use previous
                    timestamp as offset

                --useoffset [offset in seconds]
                    use specified offset for timestamps";

/// How the `delay` command is called.
pub const DELAY_COMMAND_FORMAT: &'static str = "delay [port] [optional args]";

/// The optional arguments of the `delay` command.
pub const DELAY_COMMAND_ARGS: &'static str =
"                --set [delay in seconds]
                    sets pico sensor delay to the given time in seconds";

/// What a command is asked to do.
pub enum CommandArgs<T> {
    /// Show the command's help.
    Help,
    /// Run with these options.
    Run(T),
}

/// The options of the `get` command.
pub struct GetOptions {
    /// The serial port of the device.
    pub port: String,
    /// The CSV file to save the readings to.
    pub save_file: String,
    /// Whether the last time in the file is added to the readings' times.
    pub use_previous_time_offset: bool,
    /// Seconds added to the readings' times.
    pub extra_time_offset: u32,
}

/// The options of the `delay` command.
pub struct DelayOptions {
    /// The serial port of the device.
    pub port: String,
    /// The delay to set, in seconds; 0 asks for the current one.
    pub set_time: u8,
}

/// The reminder of how a command is called.
pub open spec fn arg_error_text(format: Seq<char>) -> Seq<char> {
    "        expected args:\n            "@ + format + "\n    pass 'help' for optional command list"@
}

/// The error of a missing port.
pub open spec fn missing_port_text(format: Seq<char>) -> Seq<char> {
    "Missing port argument: \n"@ + arg_error_text(format) + PORT_FORMAT_ERROR_MESSAGE@
}

/// The error of a missing file.
pub open spec fn missing_file_text(format: Seq<char>) -> Seq<char> {
    "Missing file argument: \n"@ + arg_error_text(format)
}

/// The error of an argument that no option names.
pub open spec fn unknown_arg_text(arg: Seq<char>) -> Seq<char> {
    "unknown optional arg supplied: "@ + arg + "\n    pass 'help' for optional command list"@
}

/// True for the arguments that ask for help.
pub open spec fn is_help(arg: Seq<char>) -> bool {
    arg == "help"@ || arg == "--help"@
}

/// The error of an offset that is no `u32`.
pub open spec fn bad_offset_text() -> Seq<char> {
    "arg Supplied with --useoffset is not a valid u32 number: \n"@
}

/// The error of a missing offset.
pub open spec fn missing_offset_text() -> Seq<char> {
    "No offset supplied with --useoffset: \n    should be: --useoffset [offset]\n"@
}

/// The error of a delay that is no `u8`.
pub open spec fn bad_delay_text() -> Seq<char> {
    "arg Supplied with --set is not a valid u8 number: \n"@
}

/// The error of a missing delay.
pub open spec fn missing_delay_text() -> Seq<char> {
    "No offset supplied with --set: \n    should be: --set [delay in seconds]\n"@
}

/// Reading the optional arguments of `get` from `args[i]` on, with the
/// options found so far; option names are matched in lowercase, later ones
/// overriding earlier ones.
pub open spec fn get_options(args: Seq<Seq<char>>, i: int, use_prev: bool, offset: u32) -> Result<
    (bool, u32),
    Seq<char>,
>
    decreases args.len() - i,
{
    if i < 0 || i >= args.len() {
        Ok((use_prev, offset))
    } else if lowercase(args[i]) == "--useprev"@ {
        get_options(args, i + 1, true, offset)
    } else if lowercase(args[i]) == "--useoffset"@ {
        if i + 1 < args.len() {
            match parsed_u32(args[i + 1]) {
                Some(v) => get_options(args, i + 2, use_prev, v),
                None => Err(bad_offset_text()),
            }
        } else {
            Err(missing_offset_text())
        }
    } else {
        Err(unknown_arg_text(args[i]))
    }
}

/// Reading the optional arguments of `delay` from `args[i]` on.
pub open spec fn delay_options(args: Seq<Seq<char>>, i: int, set_time: u8) -> Result<u8, Seq<char>>
    decreases args.len() - i,
{
    if i < 0 || i >= args.len() {
        Ok(set_time)
    } else if lowercase(args[i]) == "--set"@ {
        if i + 1 < args.len() {
            match parsed_u8(args[i + 1]) {
                Some(v) => delay_options(args, i + 2, v),
                None => Err(bad_delay_text()),
            }
        } else {
            Err(missing_delay_text())
        }
    } else {
        Err(unknown_arg_text(args[i]))
    }
}

/// The error text of `prefix`, the reminder of `format`, then `suffix`.
fn usage_error(prefix: &str, format: &str, suffix: &str) -> (e: String)
    ensures
        e@ == prefix@ + arg_error_text(format@) + suffix@,
{
    let mut e = String::new();
    e.append(prefix);
    e.append("        expected args:\n            ");
    e.append(format);
    e.append("\n    pass 'help' for optional command list");
    e.append(suffix);
    assert(e@ =~= prefix@ + arg_error_text(format@) + suffix@);
    e
}

/// The error of an unknown argument.
fn unknown_arg_error(arg: &str) -> (e: String)
    ensures
        e@ == unknown_arg_text(arg@),
{
    let mut e = String::new();
    e.append("unknown optional arg supplied: ");
    e.append(arg);
    e.append("\n    pass 'help' for optional command list");
    e
}

/// A string of the given text.
fn owned(text: &str) -> (s: String)
    ensures
        s@ == text@,
{
    let mut s = String::new();
    s.append(text);
    assert(s@ =~= text@);
    s
}

/// Reads the arguments of the `get` command: the port (or `help`), the
/// file, then `--useprev` and `--useoffset [offset]` in any case and order.
pub fn parse_get_args(args: &Vec<String>) -> (r: Result<CommandArgs<GetOptions>, String>)
    ensures
        ({
            let a = views(args@);
            if a.len() == 0 {
                r matches Err(e) && e@ == missing_port_text(GET_COMMAND_FORMAT@)
            } else if is_help(a[0]) {
                r matches Ok(CommandArgs::Help)
            } else if a.len() == 1 {
                r matches Err(e) && e@ == missing_file_text(GET_COMMAND_FORMAT@)
            } else {
                match get_options(a, 2, false, 0) {
                    Ok((use_prev, offset)) => r matches Ok(CommandArgs::Run(o)) && o.port@ == a[0]
                        && o.save_file@ == a[1] && o.use_previous_time_offset == use_prev
                        && o.extra_time_offset == offset,
                    Err(m) => r matches Err(e) && e@ == m,
                }
            }
        }),
{
    let ghost a = views(args@);
    if args.len() == 0 {
        return Err(
            usage_error("Missing port argument: \n", GET_COMMAND_FORMAT, PORT_FORMAT_ERROR_MESSAGE),
        );
    }
    let port = &args[0];
    assert(port@ == a[0]);
    if str_equals(port.as_str(), "help") || str_equals(port.as_str(), "--help") {
        return Ok(CommandArgs::Help);
    }
    if args.len() == 1 {
        let e = usage_error("Missing file argument: \n", GET_COMMAND_FORMAT, "");
        proof {
            reveal_strlit("");
        }
        assert(e@ =~= missing_file_text(GET_COMMAND_FORMAT@));
        return Err(e);
    }
    let save_file = &args[1];
    let mut use_previous_time_offset = false;
    let mut extra_time_offset: u32 = 0;
    let mut i: usize = 2;
    while i < args.len()
        invariant
            2 <= i <= args.len(),
            a == views(args@),
            a.len() >= 2,
            !is_help(a[0]),
            get_options(a, 2, false, 0) == get_options(
                a,
                i as int,
                use_previous_time_offset,
                extra_time_offset,
            ),
        decreases args.len() - i,
    {
        let arg = &args[i];
        assert(arg@ == a[i as int]);
        let lower = to_lowercase(arg.as_str());
        if str_equals(lower.as_str(), "--useprev") {
            use_previous_time_offset = true;
        } else if str_equals(lower.as_str(), "--useoffset") {
            i = i + 1;
            if i < args.len() {
                assert(args@[i as int]@ == a[i as int]);
                match parse_unsigned(args[i].as_str(), u32::MAX) {
                    Some(v) => {
                        extra_time_offset = v;
                    },
                    None => {
                        return Err(owned("arg Supplied with --useoffset is not a valid u32 number: \n"));
                    },
                }
            } else {
                return Err(
                    owned("No offset supplied with --useoffset: \n    should be: --useoffset [offset]\n"),
                );
            }
        } else {
            return Err(unknown_arg_error(arg.as_str()));
        }
        i = i + 1;
    }
    Ok(
        CommandArgs::Run(
            GetOptions {
                port: port.clone(),
                save_file: save_file.clone(),
                use_previous_time_offset,
                extra_time_offset,
            },
        ),
    )
}

/// Reads the arguments of the `delay` command: the port (or `help`), then
/// `--set [delay]` in any case.
pub fn parse_delay_args(args: &Vec<String>) -> (r: Result<CommandArgs<DelayOptions>, String>)
    ensures
        ({
            let a = views(args@);
            if a.len() == 0 {
                r matches Err(e) && e@ == missing_port_text(DELAY_COMMAND_FORMAT@)
            } else if is_help(a[0]) {
                r matches Ok(CommandArgs::Help)
            } else {
                match delay_options(a, 1, 0) {
                    Ok(set_time) => r matches Ok(CommandArgs::Run(o)) && o.port@ == a[0]
                        && o.set_time == set_time,
                    Err(m) => r matches Err(e) && e@ == m,
                }
            }
        }),
{
    let ghost a = views(args@);
    if args.len() == 0 {
        return Err(
            usage_error(
                "Missing port argument: \n",
                DELAY_COMMAND_FORMAT,
                PORT_FORMAT_ERROR_MESSAGE,
            ),
        );
    }
    let port = &args[0];
    assert(port@ == a[0]);
    if str_equals(port.as_str(), "help") || str_equals(port.as_str(), "--help") {
        return Ok(CommandArgs::Help);
    }
    let mut set_time: u8 = 0;
    let mut i: usize = 1;
    while i < args.len()
        invariant
            1 <= i <= args.len(),
            a == views(args@),
            a.len() >= 1,
            !is_help(a[0]),
            delay_options(a, 1, 0) == delay_options(a, i as int, set_time),
        decreases args.len() - i,
    {
        let arg = &args[i];
        assert(arg@ == a[i as int]);
        let lower = to_lowercase(arg.as_str());
        if str_equals(lower.as_str(), "--set") {
            i = i + 1;
            if i < args.len() {
                assert(args@[i as int]@ == a[i as int]);
                match parse_unsigned(args[i].as_str(), 255) {
                    Some(v) => {
                        set_time = v as u8;
                    },
                    None => {
                        return Err(owned("arg Supplied with --set is not a valid u8 number: \n"));
                    },
                }
            } else {
                return Err(
                    owned("No offset supplied with --set: \n    should be: --set [delay in seconds]\n"),
                );
            }
        } else {
            return Err(unknown_arg_error(arg.as_str()));
        }
        i = i + 1;
    }
    Ok(CommandArgs::Run(DelayOptions { port: port.clone(), set_time }))
}

/// The commands of the tool.
pub enum Command {
    /// Fetch the readings and save them.
    Get,
    /// Show or set the device's delay between readings.
    Delay,
    /// List the commands.
    Help,
}

/// Names the command called `name`, in any case; None for an unknown one.
pub fn parse_command(name: &str) -> (c: Option<Command>)
    ensures
        lowercase(name@) == "get"@ ==> c matches Some(Command::Get),
        lowercase(name@) == "delay"@ ==> c matches Some(Command::Delay),
        (lowercase(name@) == "help"@ || lowercase(name@) == "--help"@) ==> c matches Some(
            Command::Help,
        ),
        !(lowercase(name@) == "get"@ || lowercase(name@) == "delay"@ || lowercase(name@)
            == "help"@ || lowercase(name@) == "--help"@) ==> c is None,
{
    proof {
        reveal_strlit("get");
        reveal_strlit("delay");
        reveal_strlit("help");
        reveal_strlit("--help");
        assert("get"@.len() == 3 && "delay"@.len() == 5);
        assert("help"@.len() == 4 && "--help"@.len() == 6);
    }
    let lower = to_lowercase(name);
    if str_equals(lower.as_str(), "get") {
        Some(Command::Get)
    } else if str_equals(lower.as_str(), "delay") {
        Some(Command::Delay)
    } else if str_equals(lower.as_str(), "help") || str_equals(lower.as_str(), "--help") {
        Some(Command::Help)
    } else {
        None
    }
}


/// `--useprev` only sets the flag: alone, it keeps the offset whatever it
/// was, and sets the flag whatever it was.
pub proof fn law_useprev_keeps_offset(arg: Seq<char>, use_prev: bool, offset: u32)
    requires
        lowercase(arg) == "--useprev"@,
    ensures
        get_options(seq![arg], 0, use_prev, offset) == Ok::<(bool, u32), Seq<char>>((true, offset)),
{
    assert(get_options(seq![arg], 1, true, offset) == Ok::<(bool, u32), Seq<char>>((true, offset)));
}

/// `--useoffset v` sets the offset to `v` itself and leaves the flag alone.
pub proof fn law_useoffset_sets_offset(
    arg: Seq<char>,
    value: Seq<char>,
    v: u32,
    use_prev: bool,
    offset: u32,
)
    requires
        lowercase(arg) == "--useoffset"@,
        parsed_u32(value) == Some(v),
    ensures
        get_options(seq![arg, value], 0, use_prev, offset) == Ok::<(bool, u32), Seq<char>>(
            (use_prev, v),
        ),
{
    reveal_strlit("--useprev");
    reveal_strlit("--useoffset");
    assert("--useprev"@.len() == 9 && "--useoffset"@.len() == 11);
    assert(get_options(seq![arg, value], 2, use_prev, v) == Ok::<(bool, u32), Seq<char>>(
        (use_prev, v),
    ));
}

/// Reading options from position `a.len() + k` of `a + b` is reading them
/// from position `k` of `b`.
proof fn lemma_get_options_shift(
    a: Seq<Seq<char>>,
    b: Seq<Seq<char>>,
    k: int,
    use_prev: bool,
    offset: u32,
)
    requires
        0 <= k <= b.len(),
    ensures
        get_options(a + b, a.len() + k, use_prev, offset) == get_options(b, k, use_prev, offset),
    decreases b.len() - k,
{
    if k < b.len() {
        assert((a + b)[a.len() + k] == b[k]);
        if lowercase(b[k]) == "--useprev"@ {
            lemma_get_options_shift(a, b, k + 1, true, offset);
        } else if lowercase(b[k]) == "--useoffset"@ && k + 1 < b.len() {
            assert((a + b)[a.len() + k + 1] == b[k + 1]);
            match parsed_u32(b[k + 1]) {
                Some(v) => lemma_get_options_shift(a, b, k + 2, use_prev, v),
                None => {},
            }
        }
    }
}

/// Reading options goes on from where a first list left them.
proof fn lemma_get_options_join_from(
    a: Seq<Seq<char>>,
    b: Seq<Seq<char>>,
    i: int,
    use_prev: bool,
    offset: u32,
)
    requires
        0 <= i <= a.len(),
        get_options(a, i, use_prev, offset) is Ok,
    ensures
        ({
            let (p, o) = get_options(a, i, use_prev, offset)->Ok_0;
            get_options(a + b, i, use_prev, offset) == get_options(a + b, a.len() as int, p, o)
        }),
    decreases a.len() - i,
{
    if i < a.len() {
        assert((a + b)[i] == a[i]);
        if i + 1 < a.len() {
            assert((a + b)[i + 1] == a[i + 1]);
        }
        if lowercase(a[i]) == "--useprev"@ {
            lemma_get_options_join_from(a, b, i + 1, true, offset);
        } else if lowercase(a[i]) == "--useoffset"@ {
            let v = parsed_u32(a[i + 1])->Some_0;
            lemma_get_options_join_from(a, b, i + 2, use_prev, v);
        }
    }
}

/// Options are read in turn: when a first list of options reads to the flag
/// `p` and offset `o`, that list followed by more reads as the rest read from
/// `p` and `o`.
pub proof fn law_get_options_join(
    a: Seq<Seq<char>>,
    b: Seq<Seq<char>>,
    use_prev: bool,
    offset: u32,
    p: bool,
    o: u32,
)
    requires
        get_options(a, 0, use_prev, offset) == Ok::<(bool, u32), Seq<char>>((p, o)),
    ensures
        get_options(a + b, 0, use_prev, offset) == get_options(b, 0, p, o),
{
    lemma_get_options_join_from(a, b, 0, use_prev, offset);
    lemma_get_options_shift(a, b, 0, p, o);
}

/// The options of `get` are those read from its arguments after the port
/// and the file.
pub proof fn law_get_options_after_file(args: Seq<Seq<char>>)
    requires
        args.len() >= 2,
    ensures
        get_options(args, 2, false, 0) == get_options(args.skip(2), 0, false, 0),
{
    assert(args.take(2) + args.skip(2) =~= args);
    lemma_get_options_shift(args.take(2), args.skip(2), 0, false, 0);
}

/// `--set v` sets the delay to `v` itself.
pub proof fn law_set_sets_delay(arg: Seq<char>, value: Seq<char>, v: u8, set_time: u8)
    requires
        lowercase(arg) == "--set"@,
        parsed_u8(value) == Some(v),
    ensures
        delay_options(seq![arg, value], 0, set_time) == Ok::<u8, Seq<char>>(v),
{
    assert(delay_options(seq![arg, value], 2, v) == Ok::<u8, Seq<char>>(v));
}

/// Reading delay options from position `a.len() + k` of `a + b` is reading
/// them from position `k` of `b`.
proof fn lemma_delay_options_shift(a: Seq<Seq<char>>, b: Seq<Seq<char>>, k: int, set_time: u8)
    requires
        0 <= k <= b.len(),
    ensures
        delay_options(a + b, a.len() + k, set_time) == delay_options(b, k, set_time),
    decreases b.len() - k,
{
    if k < b.len() {
        assert((a + b)[a.len() + k] == b[k]);
        if k + 1 < b.len() {
            assert((a + b)[a.len() + k + 1] == b[k + 1]);
            match parsed_u8(b[k + 1]) {
                Some(v) => lemma_delay_options_shift(a, b, k + 2, v),
                None => {},
            }
        }
    }
}

/// Reading delay options goes on from where a first list left them.
proof fn lemma_delay_options_join_from(a: Seq<Seq<char>>, b: Seq<Seq<char>>, i: int, set_time: u8)
    requires
        0 <= i <= a.len(),
        delay_options(a, i, set_time) is Ok,
    ensures
        delay_options(a + b, i, set_time) == delay_options(
            a + b,
            a.len() as int,
            delay_options(a, i, set_time)->Ok_0,
        ),
    decreases a.len() - i,
{
    if i < a.len() {
        assert((a + b)[i] == a[i]);
        if i + 1 < a.len() {
            assert((a + b)[i + 1] == a[i + 1]);
            if lowercase(a[i]) == "--set"@ {
                let v = parsed_u8(a[i + 1])->Some_0;
                lemma_delay_options_join_from(a, b, i + 2, v);
            }
        }
    }
}

/// Delay options are read in turn: a first list that reads to the delay `d`,
/// followed by more, reads as the rest read from `d`; so the last `--set`
/// given decides.
pub proof fn law_delay_options_join(a: Seq<Seq<char>>, b: Seq<Seq<char>>, set_time: u8, d: u8)
    requires
        delay_options(a, 0, set_time) == Ok::<u8, Seq<char>>(d),
    ensures
        delay_options(a + b, 0, set_time) == delay_options(b, 0, d),
{
    lemma_delay_options_join_from(a, b, 0, set_time);
    lemma_delay_options_shift(a, b, 0, d);
}

/// The options of `delay` are those read from its arguments after the port.
pub proof fn law_delay_options_after_port(args: Seq<Seq<char>>)
    requires
        args.len() >= 1,
    ensures
        delay_options(args, 1, 0) == delay_options(args.skip(1), 0, 0),
{
    assert(args.take(1) + args.skip(1) =~= args);
    lemma_delay_options_shift(args.take(1), args.skip(1), 0, 0);
}


/// Any number of `--useprev` keep the offset, and set the flag when there is
/// one.
pub proof fn law_useprev_run_keeps_offset(args: Seq<Seq<char>>, i: int, use_prev: bool, offset: u32)
    requires
        0 <= i <= args.len(),
        forall|j: int| 0 <= j < args.len() ==> lowercase(#[trigger] args[j]) == "--useprev"@,
    ensures
        get_options(args, i, use_prev, offset) == Ok::<(bool, u32), Seq<char>>(
            (use_prev || i < args.len(), offset),
        ),
    decreases args.len() - i,
{
    if i < args.len() {
        assert(lowercase(args[i]) == "--useprev"@);
        law_useprev_run_keeps_offset(args, i + 1, true, offset);
    }
}

/// The offset is that of the last `--useoffset`, whatever options come
/// before it and whatever `--useprev` come after it; those `--useprev` set
/// the flag.
pub proof fn law_last_offset_stands(
    before: Seq<Seq<char>>,
    arg: Seq<char>,
    value: Seq<char>,
    v: u32,
    after: Seq<Seq<char>>,
    use_prev: bool,
    offset: u32,
)
    requires
        get_options(before, 0, use_prev, offset) is Ok,
        lowercase(arg) == "--useoffset"@,
        parsed_u32(value) == Some(v),
        forall|j: int| 0 <= j < after.len() ==> lowercase(#[trigger] after[j]) == "--useprev"@,
    ensures
        ({
            let p = get_options(before, 0, use_prev, offset)->Ok_0.0;
            get_options(before + seq![arg, value] + after, 0, use_prev, offset) == Ok::<
                (bool, u32),
                Seq<char>,
            >((p || after.len() > 0, v))
        }),
{
    let (p, o) = get_options(before, 0, use_prev, offset)->Ok_0;
    law_get_options_join(before, seq![arg, value] + after, use_prev, offset, p, o);
    law_useoffset_sets_offset(arg, value, v, p, o);
    law_get_options_join(seq![arg, value], after, p, o, p, v);
    law_useprev_run_keeps_offset(after, 0, p, v);
    assert(before + seq![arg, value] + after =~= before + (seq![arg, value] + after));
}

} // verus!
