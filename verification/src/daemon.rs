//! The daemon: its configuration, and how it receives a client.
//!
//! The configuration holds global settings and named modules, each a section
//! with a path of its own.  A client greets, asks for a module, or for the
//! list of modules, and sends its arguments.

use vstd::prelude::*;
use vstd::utf8::encode_utf8;

use crate::options::Options;
use crate::protocol::types::opt_text;
use crate::text::{
    begins_with, chars_of, chomp, cut, find_char, first_index, is_text, lemma_texts_push, lines_of,
    parse_number, parsed_number, same_text, split_lines, starts_with_text, string_of, text, text_of,
    text_round_trip, texts, trim_chars, trimmed, utf8_lossy, without_line_end,
};
use crate::transport::daemon::{argv_bytes, nul_arg, nul_args};

verus! {

/// A module of the daemon.
#[derive(Debug, Clone)]
pub struct Module {
    pub name: String,
    pub path: String,
    pub comment: String,
    pub read_only: bool,
    pub list: bool,
}

/// The configuration of the daemon.
#[derive(Debug, Clone, Default)]
pub struct DaemonConfig {
    pub motd_file: Option<String>,
    pub port: Option<u16>,
    pub address: Option<String>,
    pub modules: Vec<Module>,
}

/// The model of a module.
#[verifier::ext_equal]
pub struct ModuleModel {
    pub name: Seq<char>,
    pub path: Seq<char>,
    pub comment: Seq<char>,
    pub read_only: bool,
    pub list: bool,
}

/// The model of a configuration.
#[verifier::ext_equal]
pub struct Config {
    pub motd_file: Option<Seq<char>>,
    pub port: Option<nat>,
    pub address: Option<Seq<char>>,
    pub modules: Seq<ModuleModel>,
}

/// A section that is being read: the last value of each setting.
#[verifier::ext_equal]
pub struct Section {
    pub name: Seq<char>,
    pub path: Option<Seq<char>>,
    pub comment: Option<Seq<char>>,
    pub read_only: Option<Seq<char>>,
    pub list: Option<Seq<char>>,
}

/// A configuration that is being read.
#[verifier::ext_equal]
pub struct Reading {
    pub config: Config,
    pub section: Option<Section>,
}

/// What is wrong with a configuration.
#[derive(Debug)]
pub enum ConfigError {
    /// A module of this name has no path.
    MissingPath(String),
}

impl View for Module {
    type V = ModuleModel;

    open spec fn view(&self) -> ModuleModel {
        ModuleModel {
            name: self.name@,
            path: self.path@,
            comment: self.comment@,
            read_only: self.read_only,
            list: self.list,
        }
    }
}

/// The model of an optional port.
pub open spec fn opt_port(p: Option<u16>) -> Option<nat> {
    match p {
        Some(n) => Some(n as nat),
        None => None,
    }
}

impl View for DaemonConfig {
    type V = Config;

    open spec fn view(&self) -> Config {
        Config {
            motd_file: opt_text(self.motd_file),
            port: opt_port(self.port),
            address: opt_text(self.address),
            modules: Seq::new(self.modules@.len(), |i: int| self.modules@[i]@),
        }
    }
}

/// A letter of ASCII in lower case; any other character as it is.
pub open spec fn lower_char(c: char) -> char {
    if 'A' <= c <= 'Z' {
        (c as u8 + 32) as char
    } else {
        c
    }
}

/// A text with the letters of ASCII in lower case.
pub open spec fn lower(s: Seq<char>) -> Seq<char> {
    Seq::new(s.len(), |i: int| lower_char(s[i]))
}

/// Whether a setting says yes.
pub open spec fn says_yes(s: Seq<char>) -> bool {
    let t = lower(trimmed(s));
    t == "yes"@ || t == "true"@ || t == "1"@ || t == "on"@
}

/// A switch is on unless the section says otherwise.
pub open spec fn switch_of(v: Option<Seq<char>>) -> bool {
    match v {
        Some(s) => says_yes(s),
        None => true,
    }
}

/// The configuration with the section that was being read as a module; the
/// section's name where it has no path.
pub open spec fn closed_section(r: Reading) -> Result<Config, Seq<char>> {
    match r.section {
        None => Ok(r.config),
        Some(s) => match s.path {
            None => Err(s.name),
            Some(path) => Ok(
                Config {
                    modules: r.config.modules.push(
                        ModuleModel {
                            name: s.name,
                            path,
                            comment: match s.comment {
                                Some(c) => c,
                                None => Seq::empty(),
                            },
                            read_only: switch_of(s.read_only),
                            list: switch_of(s.list),
                        },
                    ),
                    ..r.config
                },
            ),
        },
    }
}

/// A section with one more setting.
pub open spec fn section_with(s: Section, key: Seq<char>, val: Seq<char>) -> Section {
    if key == "path"@ {
        Section { path: Some(val), ..s }
    } else if key == "comment"@ {
        Section { comment: Some(val), ..s }
    } else if key == "read only"@ {
        Section { read_only: Some(val), ..s }
    } else if key == "list"@ {
        Section { list: Some(val), ..s }
    } else {
        s
    }
}

/// A configuration with one more global setting.
pub open spec fn global_with(c: Config, key: Seq<char>, val: Seq<char>) -> Config {
    if key == "motd file"@ {
        Config { motd_file: Some(val), ..c }
    } else if key == "port"@ {
        Config { port: parsed_number(val, 0xffff), ..c }
    } else if key == "address"@ {
        Config { address: Some(val), ..c }
    } else {
        c
    }
}

/// Whether a line says nothing: an empty one or a comment.
pub open spec fn is_idle(line: Seq<char>) -> bool {
    line.len() == 0 || line[0] == '#' || line[0] == ';'
}

/// Whether a line opens a section.
pub open spec fn is_section(line: Seq<char>) -> bool {
    line.len() >= 2 && line[0] == '[' && line.last() == ']'
}

/// A section without settings.
pub open spec fn new_section(name: Seq<char>) -> Section {
    Section { name, path: None, comment: None, read_only: None, list: None }
}

/// One more line.
pub open spec fn config_step(r: Reading, raw: Seq<char>) -> Result<Reading, Seq<char>> {
    let line = trimmed(raw);
    if is_idle(line) {
        Ok(r)
    } else if is_section(line) {
        match closed_section(r) {
            Err(name) => Err(name),
            Ok(config) => Ok(
                Reading {
                    config,
                    section: Some(new_section(trimmed(line.subrange(1, line.len() - 1)))),
                },
            ),
        }
    } else {
        match first_index(line, '=') {
            None => Ok(r),
            Some(i) => {
                let key = lower(trimmed(line.take(i)));
                let val = trimmed(line.skip(i + 1));
                match r.section {
                    Some(s) => Ok(Reading { section: Some(section_with(s, key, val)), ..r }),
                    None => Ok(Reading { config: global_with(r.config, key, val), ..r }),
                }
            },
        }
    }
}

/// Some lines, one after the other.
pub open spec fn config_lines(r: Reading, lines: Seq<Seq<char>>) -> Result<Reading, Seq<char>>
    decreases lines.len(),
{
    if lines.len() == 0 {
        Ok(r)
    } else {
        match config_step(r, lines[0]) {
            Err(name) => Err(name),
            Ok(next) => config_lines(next, lines.skip(1)),
        }
    }
}

/// A configuration without settings.
pub open spec fn no_config() -> Config {
    Config { motd_file: None, port: None, address: None, modules: Seq::empty() }
}

/// The configuration that a text stands for, or the name of a module without
/// a path.
pub open spec fn config_of(s: Seq<char>) -> Result<Config, Seq<char>> {
    match config_lines(Reading { config: no_config(), section: None }, lines_of(s)) {
        Err(name) => Err(name),
        Ok(r) => closed_section(r),
    }
}

/// Where the first module of a name is.
pub open spec fn module_at(ms: Seq<ModuleModel>, name: Seq<char>, k: nat) -> Option<int>
    decreases ms.len() - k,
{
    if k >= ms.len() {
        None
    } else if ms[k as int].name == name {
        Some(k as int)
    } else {
        module_at(ms, name, k + 1)
    }
}

pub(crate) fn lower_of(s: &[char]) -> (out: Vec<char>)
    ensures
        out@ == lower(s@),
{
    let mut out: Vec<char> = Vec::new();
    let mut i: usize = 0;
    while i < s.len()
        invariant
            i <= s@.len(),
            out@ == lower(s@).take(i as int),
        decreases s@.len() - i,
    {
        let c: char = s[i];
        if 'A' <= c && c <= 'Z' {
            out.push((c as u8 + 32) as char);
        } else {
            out.push(c);
        }
        i = i + 1;
        assert(out@ =~= lower(s@).take(i as int));
    }
    assert(lower(s@).take(i as int) =~= lower(s@));
    out
}

/// Whether a setting says yes.
pub fn parse_bool(s: &str) -> (b: bool)
    ensures
        b == says_yes(s@),
{
    let chars: Vec<char> = chars_of(s);
    let low: Vec<char> = lower_of(trim_chars(chars.as_slice()));
    let t: &[char] = low.as_slice();
    is_text(t, "yes") || is_text(t, "true") || is_text(t, "1") || is_text(t, "on")
}

struct OpenSection {
    name: String,
    path: Option<String>,
    comment: Option<String>,
    read_only: Option<String>,
    list: Option<String>,
}

impl View for OpenSection {
    type V = Section;

    closed spec fn view(&self) -> Section {
        Section {
            name: self.name@,
            path: opt_text(self.path),
            comment: opt_text(self.comment),
            read_only: opt_text(self.read_only),
            list: opt_text(self.list),
        }
    }
}

spec fn opt_section(s: Option<OpenSection>) -> Option<Section> {
    match s {
        Some(x) => Some(x@),
        None => None,
    }
}

fn switch_value(v: &Option<String>) -> (b: bool)
    ensures
        b == switch_of(opt_text(*v)),
{
    match v {
        Some(s) => parse_bool(s.as_str()),
        None => true,
    }
}

fn close_section(config: &mut DaemonConfig, section: Option<OpenSection>) -> (res: Result<
    (),
    ConfigError,
>)
    ensures
        match res {
            Ok(_) => closed_section(Reading { config: old(config)@, section: opt_section(section) })
                == Ok::<Config, Seq<char>>(final(config)@),
            Err(ConfigError::MissingPath(name)) => closed_section(
                Reading { config: old(config)@, section: opt_section(section) },
            ) == Err::<Config, Seq<char>>(name@),
        },
{
    match section {
        None => Ok(()),
        Some(s) => {
            let read_only: bool = switch_value(&s.read_only);
            let list: bool = switch_value(&s.list);
            match s.path {
                None => Err(ConfigError::MissingPath(s.name)),
                Some(path) => {
                    let comment: String = match s.comment {
                        Some(c) => c,
                        None => String::new(),
                    };
                    let m: Module = Module { name: s.name, path, comment, read_only, list };
                    let ghost before = config@;
                    config.modules.push(m);
                    assert(config@.modules =~= before.modules.push(m@));
                    Ok(())
                },
            }
        },
    }
}

fn set_in_section(s: &mut OpenSection, key: &[char], val: String)
    ensures
        final(s)@ == section_with(old(s)@, key@, val@),
{
    if is_text(key, "path") {
        s.path = Some(val);
    } else if is_text(key, "comment") {
        s.comment = Some(val);
    } else if is_text(key, "read only") {
        s.read_only = Some(val);
    } else if is_text(key, "list") {
        s.list = Some(val);
    }
}

fn set_global(c: &mut DaemonConfig, key: &[char], val: String)
    ensures
        final(c)@ == global_with(old(c)@, key@, val@),
{
    if is_text(key, "motd file") {
        c.motd_file = Some(val);
    } else if is_text(key, "port") {
        let digits: Vec<char> = chars_of(val.as_str());
        c.port = match parse_number(digits.as_slice(), 0xffff) {
            Some(n) => Some(n as u16),
            None => None,
        };
    } else if is_text(key, "address") {
        c.address = Some(val);
    }
    assert(c@.modules =~= old(c)@.modules);
}

fn read_line(config: &mut DaemonConfig, section: Option<OpenSection>, raw: &str) -> (res: Result<
    Option<OpenSection>,
    ConfigError,
>)
    ensures
        match res {
            Ok(next) => config_step(
                Reading { config: old(config)@, section: opt_section(section) },
                raw@,
            ) == Ok::<Reading, Seq<char>>(
                Reading { config: final(config)@, section: opt_section(next) },
            ),
            Err(ConfigError::MissingPath(name)) => config_step(
                Reading { config: old(config)@, section: opt_section(section) },
                raw@,
            ) == Err::<Reading, Seq<char>>(name@),
        },
{
    let chars: Vec<char> = chars_of(raw);
    let line: &[char] = trim_chars(chars.as_slice());
    if line.len() == 0 || line[0] == '#' || line[0] == ';' {
        return Ok(section);
    }
    if line.len() >= 2 && line[0] == '[' && line[line.len() - 1] == ']' {
        match close_section(config, section) {
            Err(e) => return Err(e),
            Ok(_) => {},
        }
        let name: String = string_of(trim_chars(cut(line, 1, line.len() - 1)));
        return Ok(
            Some(
                OpenSection { name, path: None, comment: None, read_only: None, list: None },
            ),
        );
    }
    match find_char(line, '=') {
        None => Ok(section),
        Some(i) => {
            let (left, right) = line.split_at(i);
            let right: &[char] = right.split_at(1).1;
            assert(left@ =~= line@.take(i as int));
            assert(right@ =~= line@.skip(i + 1));
            let key: Vec<char> = lower_of(trim_chars(left));
            let val: String = string_of(trim_chars(right));
            match section {
                Some(s) => {
                    let mut s: OpenSection = s;
                    set_in_section(&mut s, key.as_slice(), val);
                    Ok(Some(s))
                },
                None => {
                    set_global(config, key.as_slice(), val);
                    Ok(None)
                },
            }
        },
    }
}

/// Reads a configuration.
pub fn parse_config_str(s: &str) -> (res: Result<DaemonConfig, ConfigError>)
    ensures
        match res {
            Ok(c) => config_of(s@) == Ok::<Config, Seq<char>>(c@),
            Err(ConfigError::MissingPath(name)) => config_of(s@) == Err::<Config, Seq<char>>(name@),
        },
{
    let lines: Vec<String> = split_lines(s);
    let ghost all = lines_of(s@);
    let mut config: DaemonConfig = DaemonConfig {
        motd_file: None,
        port: None,
        address: None,
        modules: Vec::new(),
    };
    let mut section: Option<OpenSection> = None;
    let ghost start = Reading { config: no_config(), section: None };
    let mut i: usize = 0;
    assert(config@ =~= no_config());
    assert(all.skip(0) =~= all);
    while i < lines.len()
        invariant
            i <= lines@.len(),
            texts(lines@) == all,
            all == lines_of(s@),
            start == (Reading { config: no_config(), section: None }),
            config_lines(
                Reading { config: config@, section: opt_section(section) },
                all.skip(i as int),
            ) == config_lines(start, all),
        decreases lines@.len() - i,
    {
        let ghost rest = all.skip(i as int);
        assert(rest[0] == lines@[i as int]@);
        assert(rest.skip(1) =~= all.skip(i + 1));
        match read_line(&mut config, section, lines[i].as_str()) {
            Err(e) => return Err(e),
            Ok(next) => {
                section = next;
            },
        }
        i = i + 1;
    }
    match close_section(&mut config, section) {
        Err(e) => Err(e),
        Ok(_) => Ok(config),
    }
}

impl DaemonConfig {
    /// The position of a module.
    pub fn position(&self, name: &str) -> (res: Option<usize>)
        ensures
            match res {
                Some(i) => module_at(self@.modules, name@, 0) == Some(i as int) && i
                    < self.modules@.len(),
                None => module_at(self@.modules, name@, 0) == None::<int>,
            },
    {
        let mut k: usize = 0;
        while k < self.modules.len()
            invariant
                k <= self.modules@.len(),
                module_at(self@.modules, name@, k as nat) == module_at(self@.modules, name@, 0),
            decreases self.modules@.len() - k,
        {
            assert(self@.modules[k as int] == self.modules@[k as int]@);
            if same_text(self.modules[k].name.as_str(), name) {
                return Some(k);
            }
            k = k + 1;
        }
        None
    }

    /// The first module of a name.
    pub fn find(&self, name: &str) -> (res: Option<&Module>)
        ensures
            match res {
                Some(m) => module_at(self@.modules, name@, 0) matches Some(i)
                    && self@.modules[i] == m@,
                None => module_at(self@.modules, name@, 0) == None::<int>,
            },
    {
        match self.position(name) {
            Some(i) => {
                assert(self@.modules[i as int] == self.modules@[i as int]@);
                Some(&self.modules[i])
            },
            None => None,
        }
    }
}

/// The port of the daemon where nothing names one.
pub const DAEMON_PORT: u16 = 873;

/// Where the daemon listens, given the port of the options.
pub open spec fn listening(port: Option<u16>, c: Config) -> (Seq<char>, nat) {
    (
        match c.address {
            Some(a) => a,
            None => "0.0.0.0"@,
        },
        match port {
            Some(p) => p as nat,
            None => match c.port {
                Some(p) => p,
                None => DAEMON_PORT as nat,
            },
        },
    )
}

/// Where the daemon listens: the address and port of the configuration, the
/// port of the options before it.
pub fn listen_on(opts: &Options, config: &DaemonConfig) -> (res: (String, u16))
    ensures
        (res.0@, res.1 as nat) == listening(opts.port, config@),
        res.0@ == match config@.address {
            Some(a) => a,
            None => "0.0.0.0"@,
        },
        res.1 == match opts.port {
            Some(p) => p,
            None => match config.port {
                Some(p) => p,
                None => DAEMON_PORT,
            },
        },
{
    let address: String = match &config.address {
        Some(a) => a.clone(),
        None => text("0.0.0.0"),
    };
    let port: u16 = match opts.port {
        Some(p) => p,
        None => match config.port {
            Some(p) => p,
            None => DAEMON_PORT,
        },
    };
    (address, port)
}

// ---------------------------------------------------------------------------
// Receiving a client
// ---------------------------------------------------------------------------

/// How far the daemon is with a client.
#[derive(Clone, Copy, Debug, PartialEq, Eq, Structural)]
pub enum Stage {
    /// The client's greeting comes next.
    Greeting,
    /// The name of a module comes next.
    Module,
    /// The client's arguments come next, for the module at this position.
    Args(usize),
    /// The conversation is over.
    Closed,
}

/// What the daemon is to do.
#[derive(Debug)]
pub enum ServerAction {
    /// Read on.
    Wait,
    /// Send this and end the conversation.
    Refuse(String),
    /// Send the list of modules and end the conversation.
    List,
    /// Send this and read the arguments.
    Grant(String),
}

/// The model of what the daemon is to do.
pub enum Reply {
    Wait,
    Refuse(Seq<char>),
    List,
    Grant(Seq<char>),
}

impl View for ServerAction {
    type V = Reply;

    open spec fn view(&self) -> Reply {
        match self {
            ServerAction::Wait => Reply::Wait,
            ServerAction::Refuse(s) => Reply::Refuse(s@),
            ServerAction::List => Reply::List,
            ServerAction::Grant(s) => Reply::Grant(s@),
        }
    }
}

/// What the daemon does when a client asks for a module.
pub open spec fn on_module(config: Config, name: Seq<char>) -> (Stage, Reply) {
    if name.len() == 0 || name == "#list"@ {
        (Stage::Closed, Reply::List)
    } else if name[0] == '#' {
        (Stage::Closed, Reply::Refuse("@ERROR: Unknown command '"@ + name + "'\n"@))
    } else {
        match module_at(config.modules, name, 0) {
            Some(i) => (Stage::Args(i as usize), Reply::Grant("@RSYNCD: OK\n"@)),
            None => (Stage::Closed, Reply::Refuse("@ERROR: Unknown module '"@ + name + "'\n"@)),
        }
    }
}

/// What the daemon does on a line of a client.
pub open spec fn session_step(stage: Stage, config: Config, line: Seq<char>) -> (Stage, Reply) {
    match stage {
        Stage::Greeting => if begins_with(line, "@RSYNCD:"@) {
            (Stage::Module, Reply::Wait)
        } else {
            (Stage::Closed, Reply::Refuse("@ERROR: protocol startup error\n"@))
        },
        Stage::Module => on_module(config, without_line_end(line)),
        _ => (stage, Reply::Wait),
    }
}

fn quoted_reply(head: &str, name: &[char], tail: &str) -> (s: String)
    ensures
        s@ == head@ + name@ + tail@,
{
    let mut s: String = String::new();
    s.push_str(head);
    s.push_str(string_of(name).as_str());
    s.push_str(tail);
    assert(s@ =~= head@ + name@ + tail@);
    s
}

/// The daemon in conversation with a client.
pub struct Session {
    pub stage: Stage,
}

impl Session {
    /// A client that has just connected.
    pub fn new() -> (s: Session)
        ensures
            s.stage == Stage::Greeting,
    {
        Session { stage: Stage::Greeting }
    }

    /// Takes a line of the client.
    pub fn on_line(&mut self, config: &DaemonConfig, line: &str) -> (a: ServerAction)
        ensures
            (final(self).stage, a@) == session_step(old(self).stage, config@, line@),
    {
        let chars: Vec<char> = chars_of(line);
        match self.stage {
            Stage::Greeting => {
                if starts_with_text(chars.as_slice(), "@RSYNCD:") {
                    self.stage = Stage::Module;
                    ServerAction::Wait
                } else {
                    self.stage = Stage::Closed;
                    ServerAction::Refuse(text("@ERROR: protocol startup error\n"))
                }
            },
            Stage::Module => {
                let name: &[char] = chomp(chars.as_slice());
                if name.len() == 0 || is_text(name, "#list") {
                    self.stage = Stage::Closed;
                    return ServerAction::List;
                }
                if name[0] == '#' {
                    self.stage = Stage::Closed;
                    return ServerAction::Refuse(
                        quoted_reply("@ERROR: Unknown command '", name, "'\n"),
                    );
                }
                let asked: String = string_of(name);
                match config.position(asked.as_str()) {
                    Some(i) => {
                        self.stage = Stage::Args(i);
                        ServerAction::Grant(text("@RSYNCD: OK\n"))
                    },
                    None => {
                        self.stage = Stage::Closed;
                        ServerAction::Refuse(
                            quoted_reply("@ERROR: Unknown module '", name, "'\n"),
                        )
                    },
                }
            },
            _ => ServerAction::Wait,
        }
    }
}

/// A text with blanks behind it up to a width.
pub open spec fn padded(s: Seq<char>, width: nat) -> Seq<char> {
    if s.len() >= width {
        s
    } else {
        s + Seq::new((width - s.len()) as nat, |i: int| ' ')
    }
}

/// The lines of the modules that are listed.
pub open spec fn module_lines(ms: Seq<ModuleModel>) -> Seq<char>
    decreases ms.len(),
{
    if ms.len() == 0 {
        Seq::empty()
    } else {
        let m = ms.last();
        let before = module_lines(ms.drop_last());
        if m.list {
            before + padded(m.name, 15) + "\t"@ + m.comment + "\n"@
        } else {
            before
        }
    }
}

/// The message of the day, with a line end.
pub open spec fn motd_lines(motd: Option<Seq<char>>) -> Seq<char> {
    match motd {
        None => Seq::empty(),
        Some(t) => if t.len() > 0 && t.last() == '\n' {
            t
        } else {
            t + "\n"@
        },
    }
}

/// The answer to a client that asks for the list of modules.
pub open spec fn listing(config: Config, motd: Option<Seq<char>>) -> Seq<char> {
    motd_lines(motd) + module_lines(config.modules) + "@RSYNCD: EXIT\n"@
}

fn push_padded(s: &mut String, name: &str, width: usize)
    ensures
        final(s)@ == old(s)@ + padded(name@, width as nat),
{
    s.push_str(name);
    let n: usize = chars_of(name).len();
    let mut i: usize = n;
    let ghost start = s@;
    if n < width {
        assert(s@ =~= start + Seq::new(0, |k: int| ' '));
        while i < width
            invariant
                n <= i <= width,
                s@ == start + Seq::new((i - n) as nat, |k: int| ' '),
            decreases width - i,
        {
            s.push(' ');
            i = i + 1;
            assert(s@ =~= start + Seq::new((i - n) as nat, |k: int| ' '));
        }
    }
    assert(s@ =~= old(s)@ + padded(name@, width as nat));
}

/// Writes the list of modules; `motd` is the message of the day, where there
/// is one.
pub fn listing_text(config: &DaemonConfig, motd: &Option<String>) -> (s: String)
    ensures
        s@ == listing(config@, opt_text(*motd)),
{
    let mut s: String = String::new();
    match motd {
        None => {},
        Some(t) => {
            s.push_str(t.as_str());
            let chars: Vec<char> = chars_of(t.as_str());
            if chars.len() == 0 || chars[chars.len() - 1] != '\n' {
                s.push_str("\n");
            }
        },
    }
    let ghost head = motd_lines(opt_text(*motd));
    assert(s@ =~= head);
    let ghost ms = config@.modules;
    let mut i: usize = 0;
    assert(s@ =~= head + module_lines(ms.take(0)));
    while i < config.modules.len()
        invariant
            i <= config.modules@.len(),
            ms == config@.modules,
            s@ == head + module_lines(ms.take(i as int)),
        decreases config.modules@.len() - i,
    {
        let m: &Module = &config.modules[i];
        assert(ms[i as int] == m@);
        proof {
            let next = ms.take(i + 1);
            assert(next.drop_last() =~= ms.take(i as int));
        }
        if m.list {
            push_padded(&mut s, m.name.as_str(), 15);
            s.push_str("\t");
            s.push_str(m.comment.as_str());
            s.push_str("\n");
        }
        assert(s@ =~= head + module_lines(ms.take(i + 1)));
        i = i + 1;
    }
    assert(ms.take(i as int) =~= ms);
    s.push_str("@RSYNCD: EXIT\n");
    assert(s@ =~= listing(config@, opt_text(*motd)));
    s
}

/// The arguments of a client as far as they are read.
#[verifier::ext_equal]
pub struct Args {
    /// The complete ones.
    pub args: Seq<Seq<char>>,
    /// The bytes of the one that is being read.
    pub cur: Seq<u8>,
    /// Whether a dot was among them.
    pub seen_dot: bool,
    /// Whether the empty argument that ends them was read.
    pub done: bool,
}

/// No argument read yet, but the name of the program.
pub open spec fn no_args() -> Args {
    Args { args: seq!["rsyncd"@], cur: Seq::empty(), seen_dot: false, done: false }
}

/// An argument within a module: behind the dot the module itself, with or
/// without a slash, is its top directory.
pub open spec fn in_module(arg: Seq<char>, seen_dot: bool, module: Seq<char>) -> Seq<char> {
    if seen_dot && (arg == module || arg == module + "/"@) {
        "."@
    } else {
        arg
    }
}

/// One more byte.
pub open spec fn arg_step(st: Args, b: u8, module: Seq<char>) -> Args {
    if st.done {
        st
    } else if b != 0 {
        Args { cur: st.cur.push(b), ..st }
    } else if st.cur.len() == 0 {
        Args { done: true, ..st }
    } else {
        let arg = in_module(text_of(st.cur), st.seen_dot, module);
        Args {
            args: st.args.push(arg),
            cur: Seq::empty(),
            seen_dot: st.seen_dot || arg == "."@,
            done: false,
        }
    }
}

/// Some more bytes.
pub open spec fn args_after(st: Args, bytes: Seq<u8>, module: Seq<char>) -> Args
    decreases bytes.len(),
{
    if bytes.len() == 0 {
        st
    } else {
        args_after(arg_step(st, bytes[0], module), bytes.skip(1), module)
    }
}

/// Reads the arguments of a client: each ends with a zero byte, and an empty
/// one ends them all.
pub struct ArgReader {
    pub args: Vec<String>,
    pub cur: Vec<u8>,
    pub seen_dot: bool,
    pub done: bool,
}

impl View for ArgReader {
    type V = Args;

    open spec fn view(&self) -> Args {
        Args {
            args: texts(self.args@),
            cur: self.cur@,
            seen_dot: self.seen_dot,
            done: self.done,
        }
    }
}

impl ArgReader {
    /// Nothing read yet.
    pub fn new() -> (r: ArgReader)
        ensures
            r@ == no_args(),
    {
        let mut args: Vec<String> = Vec::new();
        let name: String = text("rsyncd");
        proof {
            lemma_texts_push(args@, name);
        }
        args.push(name);
        let r: ArgReader = ArgReader { args, cur: Vec::new(), seen_dot: false, done: false };
        assert(r@.args =~= seq!["rsyncd"@]);
        assert(r@.cur =~= Seq::<u8>::empty());
        r
    }

    /// Takes one byte.
    pub fn feed(&mut self, b: u8, module: &str)
        ensures
            final(self)@ == arg_step(old(self)@, b, module@),
    {
        if self.done {
            return;
        }
        if b != 0 {
            self.cur.push(b);
            return;
        }
        if self.cur.len() == 0 {
            self.done = true;
            return;
        }
        let arg: String = utf8_lossy(self.cur.as_slice());
        assert(arg@ == text_of(self.cur@));
        let mut with_slash: String = text(module);
        with_slash.push_str("/");
        let arg: String = if self.seen_dot && (same_text(arg.as_str(), module) || same_text(
            arg.as_str(),
            with_slash.as_str(),
        )) {
            text(".")
        } else {
            arg
        };
        if same_text(arg.as_str(), ".") {
            self.seen_dot = true;
        }
        proof {
            lemma_texts_push(self.args@, arg);
        }
        self.args.push(arg);
        self.cur = Vec::new();
        assert(self@ =~= arg_step(old(self)@, b, module@));
    }

    /// Takes some bytes.
    pub fn feed_all(&mut self, bytes: &[u8], module: &str)
        ensures
            final(self)@ == args_after(old(self)@, bytes@, module@),
    {
        let mut i: usize = 0;
        assert(bytes@.skip(0) =~= bytes@);
        while i < bytes.len()
            invariant
                i <= bytes@.len(),
                args_after(self@, bytes@.skip(i as int), module@) == args_after(
                    old(self)@,
                    bytes@,
                    module@,
                ),
            decreases bytes@.len() - i,
        {
            let ghost rest = bytes@.skip(i as int);
            assert(rest.skip(1) =~= bytes@.skip(i + 1));
            self.feed(bytes[i], module);
            i = i + 1;
        }
    }
}

/// What becomes of a client with these arguments in a module: whether the
/// daemon sends, or the line that refuses the client.
pub open spec fn admission(args: Seq<Seq<char>>, m: ModuleModel) -> Result<bool, Seq<char>> {
    if args.contains("--sender"@) {
        Ok(true)
    } else if m.read_only {
        Err("@ERROR: module '"@ + m.name + "' is read only\n"@)
    } else {
        Ok(false)
    }
}

/// Whether a client may go on with a module: one that would write needs a
/// module that is not read-only.  Says whether the daemon sends, or the line
/// that refuses the client.
pub fn admit_client(args: &[String], module: &Module) -> (res: Result<bool, String>)
    ensures
        match res {
            Ok(sender) => admission(texts(args@), module@) == Ok::<bool, Seq<char>>(sender),
            Err(line) => admission(texts(args@), module@) == Err::<bool, Seq<char>>(line@),
        },
        match res {
            Ok(sender) => sender == texts(args@).contains("--sender"@) && (module.read_only
                ==> sender),
            Err(line) => module.read_only && !texts(args@).contains("--sender"@) && line@
                == "@ERROR: module '"@ + module.name@ + "' is read only\n"@,
        },
{
    let mut i: usize = 0;
    while i < args.len()
        invariant
            i <= args@.len(),
            forall|k: int| 0 <= k < i ==> args@[k]@ != "--sender"@,
        decreases args@.len() - i,
    {
        if same_text(args[i].as_str(), "--sender") {
            assert(texts(args@)[i as int] == "--sender"@);
            return Ok(true);
        }
        i = i + 1;
    }
    assert(!texts(args@).contains("--sender"@));
    if module.read_only {
        let name: Vec<char> = chars_of(module.name.as_str());
        Err(quoted_reply("@ERROR: module '", name.as_slice(), "' is read only\n"))
    } else {
        Ok(false)
    }
}

// ---------------------------------------------------------------------------
// Laws
// ---------------------------------------------------------------------------

/// The arguments of a client within a module.
pub open spec fn all_in_module(args: Seq<Seq<char>>, seen_dot: bool, module: Seq<char>) -> Seq<
    Seq<char>,
>
    decreases args.len(),
{
    if args.len() == 0 {
        Seq::empty()
    } else {
        let arg = in_module(args[0], seen_dot, module);
        seq![arg] + all_in_module(args.skip(1), seen_dot || arg == "."@, module)
    }
}

/// Whether a dot was read once the arguments of a client are.
spec fn dot_after(args: Seq<Seq<char>>, seen_dot: bool, module: Seq<char>) -> bool
    decreases args.len(),
{
    if args.len() == 0 {
        seen_dot
    } else {
        let arg = in_module(args[0], seen_dot, module);
        dot_after(args.skip(1), seen_dot || arg == "."@, module)
    }
}

/// Whether an argument can be sent: it is not empty and holds no zero byte.
pub open spec fn can_be_sent(arg: Seq<char>) -> bool {
    encode_utf8(arg).len() > 0 && !encode_utf8(arg).contains(0)
}

proof fn lemma_bytes_of_arg(st: Args, b: Seq<u8>, tail: Seq<u8>, module: Seq<char>)
    requires
        !st.done,
        !b.contains(0),
    ensures
        args_after(st, b + tail, module) == args_after(
            Args { cur: st.cur + b, ..st },
            tail,
            module,
        ),
    decreases b.len(),
{
    if b.len() == 0 {
        assert(b + tail =~= tail);
        assert(st.cur + b =~= st.cur);
    } else {
        assert(b.contains(b[0]));
        let next = arg_step(st, b[0], module);
        assert((b + tail).skip(1) =~= b.skip(1) + tail);
        assert forall|x: u8| b.skip(1).contains(x) implies b.contains(x) by {
            let i = choose|i: int| 0 <= i < b.skip(1).len() && b.skip(1)[i] == x;
            assert(b[i + 1] == x);
        }
        lemma_bytes_of_arg(next, b.skip(1), tail, module);
        assert(next.cur + b.skip(1) =~= st.cur + b);
    }
}

proof fn lemma_one_arg(st: Args, arg: Seq<char>, tail: Seq<u8>, module: Seq<char>)
    requires
        !st.done,
        st.cur.len() == 0,
        can_be_sent(arg),
    ensures
        ({
            let a = in_module(arg, st.seen_dot, module);
            args_after(st, nul_arg(arg) + tail, module) == args_after(
                Args {
                    args: st.args.push(a),
                    cur: Seq::empty(),
                    seen_dot: st.seen_dot || a == "."@,
                    done: false,
                },
                tail,
                module,
            )
        }),
{
    let b = encode_utf8(arg);
    let zero = seq![0u8] + tail;
    assert(nul_arg(arg) + tail =~= b + zero);
    lemma_bytes_of_arg(st, b, zero, module);
    assert(st.cur + b =~= b);
    let full = Args { cur: b, ..st };
    assert(zero.skip(1) =~= tail);
    text_round_trip(arg);
    assert(args_after(full, zero, module) == args_after(arg_step(full, 0, module), tail, module));
}

proof fn lemma_some_args(st: Args, args: Seq<Seq<char>>, tail: Seq<u8>, module: Seq<char>)
    requires
        !st.done,
        st.cur.len() == 0,
        forall|i: int| 0 <= i < args.len() ==> can_be_sent(#[trigger] args[i]),
    ensures
        args_after(st, nul_args(args) + tail, module) == args_after(
            Args {
                args: st.args + all_in_module(args, st.seen_dot, module),
                cur: Seq::empty(),
                seen_dot: dot_after(args, st.seen_dot, module),
                done: false,
            },
            tail,
            module,
        ),
    decreases args.len(),
{
    if args.len() == 0 {
        assert(nul_args(args) + tail =~= tail);
        assert(st.args + all_in_module(args, st.seen_dot, module) =~= st.args);
        assert(st.cur =~= Seq::<u8>::empty());
        assert(st =~= (Args {
            args: st.args + all_in_module(args, st.seen_dot, module),
            cur: Seq::empty(),
            seen_dot: st.seen_dot,
            done: false,
        }));
    } else {
        let rest = nul_args(args.skip(1)) + tail;
        assert(nul_args(args) + tail =~= nul_arg(args[0]) + rest);
        lemma_one_arg(st, args[0], rest, module);
        let a = in_module(args[0], st.seen_dot, module);
        let next = Args {
            args: st.args.push(a),
            cur: Seq::empty(),
            seen_dot: st.seen_dot || a == "."@,
            done: false,
        };
        lemma_some_args(next, args.skip(1), tail, module);
        assert(next.args + all_in_module(args.skip(1), next.seen_dot, module) =~= st.args
            + all_in_module(args, st.seen_dot, module));
    }
}

/// The arguments that a client sends are those that the daemon reads, within
/// the module, and the daemon knows where they end.
pub proof fn client_args_are_read(args: Seq<Seq<char>>, module: Seq<char>, tail: Seq<u8>)
    requires
        forall|i: int| 0 <= i < args.len() ==> can_be_sent(#[trigger] args[i]),
    ensures
        ({
            let st = args_after(no_args(), argv_bytes(args) + tail, module);
            &&& st.done
            &&& st.args == seq!["rsyncd"@] + all_in_module(seq!["--server"@] + args, false, module)
        }),
{
    let all = seq!["--server"@] + args;
    assert(all.skip(1) =~= args);
    let end = seq![0u8] + tail;
    assert(argv_bytes(args) + tail =~= nul_args(all) + end) by {
        assert(nul_args(all) =~= nul_arg("--server"@) + nul_args(args));
    }
    assert(can_be_sent("--server"@)) by {
        reveal_strlit("--server");
        vstd::utf8::is_ascii_chars_encode_utf8("--server"@);
    }
    assert forall|i: int| 0 <= i < all.len() implies can_be_sent(#[trigger] all[i]) by {
        if i > 0 {
            assert(all[i] == args[i - 1]);
        }
    }
    lemma_some_args(no_args(), all, end, module);
    let last = Args {
        args: no_args().args + all_in_module(all, false, module),
        cur: Seq::empty(),
        seen_dot: dot_after(all, false, module),
        done: false,
    };
    assert(end.skip(1) =~= tail);
    lemma_done_stays(arg_step(last, 0, module), tail, module);
}

proof fn lemma_done_stays(st: Args, bytes: Seq<u8>, module: Seq<char>)
    requires
        st.done,
    ensures
        args_after(st, bytes, module) == st,
    decreases bytes.len(),
{
    if bytes.len() > 0 {
        lemma_done_stays(st, bytes.skip(1), module);
    }
}

/// Only a client that names a listed or unlisted module of the configuration
/// gets as far as sending arguments, and it gets the first of that name.
pub proof fn only_modules_are_granted(config: Config, line: Seq<char>)
    requires
        config.modules.len() <= usize::MAX,
    ensures
        session_step(Stage::Module, config, line).0 matches Stage::Args(i) ==> i
            < config.modules.len() && config.modules[i as int].name == without_line_end(line)
            && forall|j: int|
            0 <= j < i ==> (#[trigger] config.modules[j]).name != without_line_end(line),
{
    lemma_module_at(config.modules, without_line_end(line), 0);
}

proof fn lemma_module_at(ms: Seq<ModuleModel>, name: Seq<char>, k: nat)
    ensures
        match module_at(ms, name, k) {
            Some(i) => k <= i < ms.len() && ms[i].name == name && forall|j: int|
                k <= j < i ==> (#[trigger] ms[j]).name != name,
            None => forall|j: int| k <= j < ms.len() ==> (#[trigger] ms[j]).name != name,
        },
    decreases ms.len() - k,
{
    if k < ms.len() && ms[k as int].name != name {
        lemma_module_at(ms, name, k + 1);
    }
}

} // verus!
