//! What the daemon's configuration says, and what the two ends of a
//! conversation with it make of each other's lines.

use vstd::prelude::*;
use vstd::utf8::encode_utf8;

use crate::daemon::{
    closed_section, config_lines, config_of, config_step, global_with, listing, lower, lower_char,
    module_at, module_lines, no_config, on_module, says_yes, section_with, session_step, Config,
    ModuleModel, Reading, Reply, Section, Stage,
};
use crate::laws::words::{
    can_be_line, is_tight, line_ends_go, lines_are_found_again, with_ends, written_number_is_read,
};
use crate::protocol::constants::PROTOCOL_VERSION;
use crate::text::{
    begins_with, decimal, first_index, is_white, lemma_index_from, trim_back, trim_front, trimmed,
    without_line_end,
};
use crate::transport::daemon::{
    argv_bytes, client_step, hello_text, major_part, Action, ClientState, Failure,
};

verus! {

// ---------------------------------------------------------------------------
// The configuration
// ---------------------------------------------------------------------------

/// A line with a setting.
pub open spec fn setting_line(key: Seq<char>, val: Seq<char>) -> Seq<char> {
    key + seq![' ', '=', ' '] + val
}

/// A word for a switch.
pub open spec fn switch_word(on: bool) -> Seq<char> {
    if on {
        "yes"@
    } else {
        "no"@
    }
}

/// The lines of a module.
pub open spec fn lines_of_module(m: ModuleModel) -> Seq<Seq<char>> {
    seq![
        seq!['['] + m.name + seq![']'],
        setting_line("path"@, m.path),
        setting_line("read only"@, switch_word(m.read_only)),
        setting_line("list"@, switch_word(m.list)),
    ] + if m.comment.len() > 0 {
        seq![setting_line("comment"@, m.comment)]
    } else {
        Seq::empty()
    }
}

/// The lines of some modules.
pub open spec fn lines_of_modules(ms: Seq<ModuleModel>) -> Seq<Seq<char>>
    decreases ms.len(),
{
    if ms.len() == 0 {
        Seq::empty()
    } else {
        lines_of_module(ms[0]) + lines_of_modules(ms.skip(1))
    }
}

/// Whether a text can stand on a line of the configuration.
pub open spec fn can_be_set(s: Seq<char>) -> bool {
    is_tight(s) && !s.contains('\n')
}

/// Whether a module can be written down: it has a path, and each text can
/// stand on a line.
pub open spec fn can_be_written(m: ModuleModel) -> bool {
    &&& m.path.len() > 0
    &&& can_be_set(m.path)
    &&& can_be_set(m.name)
    &&& can_be_set(m.comment)
}

/// Whether a text can be the name of a setting.
spec fn is_key(key: Seq<char>) -> bool {
    &&& key.len() > 0
    &&& is_tight(key)
    &&& !key.contains('=')
    &&& key[0] != '#' && key[0] != ';' && key[0] != '['
    &&& lower(key) == key
}

proof fn lemma_setting(r: Reading, key: Seq<char>, val: Seq<char>)
    requires
        is_key(key),
        val.len() > 0,
        is_tight(val),
    ensures
        config_step(r, setting_line(key, val)) == Ok::<Reading, Seq<char>>(
            match r.section {
                Some(s) => Reading { section: Some(section_with(s, key, val)), ..r },
                None => Reading { config: global_with(r.config, key, val), ..r },
            },
        ),
{
    let line = setting_line(key, val);
    let n = key.len() as int;
    assert(line[0] == key[0]);
    assert(line.last() == val.last());
    assert(trimmed(line) == line);
    lemma_index_from(line, '=', 0);
    assert(line[n + 1] == '=');
    assert(first_index(line, '=') == Some(n + 1)) by {
        match first_index(line, '=') {
            Some(i) => {
                if i < n {
                    assert(key[i] == '=');
                } else if i == n {
                    assert(line[i] == ' ');
                }
            },
            None => {},
        }
    }
    let left = line.take(n + 1);
    let right = line.skip(n + 2);
    assert(left =~= key.push(' '));
    assert(left.drop_last() =~= key);
    assert(trim_front(left) == left);
    assert(trim_back(left) == trim_back(key));
    assert(trimmed(left) == key);
    assert(right =~= seq![' '] + val);
    assert(right.skip(1) =~= val);
    assert(trim_front(right) == trim_front(val));
    assert(trimmed(right) == val);
}

proof fn lemma_header(r: Reading, name: Seq<char>)
    requires
        is_tight(name),
    ensures
        config_step(r, seq!['['] + name + seq![']']) == match closed_section(r) {
            Err(e) => Err(e),
            Ok(config) => Ok::<Reading, Seq<char>>(
                Reading {
                    config,
                    section: Some(
                        Section { name, path: None, comment: None, read_only: None, list: None },
                    ),
                },
            ),
        },
{
    let line = seq!['['] + name + seq![']'];
    assert(line[0] == '[' && line.last() == ']');
    assert(trimmed(line) == line);
    assert(line.subrange(1, line.len() - 1) =~= name);
}

proof fn lemma_lines_concat(r: Reading, a: Seq<Seq<char>>, b: Seq<Seq<char>>)
    ensures
        config_lines(r, a + b) == match config_lines(r, a) {
            Err(e) => Err(e),
            Ok(s) => config_lines(s, b),
        },
    decreases a.len(),
{
    if a.len() == 0 {
        assert(a + b =~= b);
    } else {
        assert((a + b)[0] == a[0]);
        assert((a + b).skip(1) =~= a.skip(1) + b);
        match config_step(r, a[0]) {
            Err(_) => {},
            Ok(s) => lemma_lines_concat(s, a.skip(1), b),
        }
    }
}

proof fn lemma_keys()
    ensures
        is_key("path"@),
        is_key("comment"@),
        is_key("read only"@),
        is_key("list"@),
        is_key("port"@),
        is_key("address"@),
        is_key("motd file"@),
{
    reveal_strlit("path");
    reveal_strlit("comment");
    reveal_strlit("read only");
    reveal_strlit("list");
    reveal_strlit("port");
    reveal_strlit("address");
    reveal_strlit("motd file");
    assert(lower("path"@) =~= "path"@);
    assert(lower("comment"@) =~= "comment"@);
    assert(lower("read only"@) =~= "read only"@);
    assert(lower("list"@) =~= "list"@);
    assert(lower("port"@) =~= "port"@);
    assert(lower("address"@) =~= "address"@);
    assert(lower("motd file"@) =~= "motd file"@);
}

proof fn lemma_key_names()
    ensures
        "path"@ != "comment"@,
        "path"@ != "read only"@,
        "path"@ != "list"@,
        "comment"@ != "read only"@,
        "comment"@ != "list"@,
        "read only"@ != "list"@,
        "motd file"@ != "port"@,
        "motd file"@ != "address"@,
        "port"@ != "address"@,
{
    reveal_strlit("path");
    reveal_strlit("comment");
    reveal_strlit("read only");
    reveal_strlit("list");
    reveal_strlit("port");
    reveal_strlit("address");
    reveal_strlit("motd file");
    assert("path"@[0] != "comment"@[0]);
    assert("path"@.len() != "read only"@.len());
    assert("path"@[0] != "list"@[0]);
    assert("comment"@.len() != "read only"@.len());
    assert("comment"@.len() != "list"@.len());
    assert("read only"@.len() != "list"@.len());
    assert("motd file"@.len() != "port"@.len());
    assert("motd file"@.len() != "address"@.len());
    assert("port"@.len() != "address"@.len());
}

proof fn lemma_switch_word(on: bool)
    ensures
        says_yes(switch_word(on)) == on,
        switch_word(on).len() > 0,
        is_tight(switch_word(on)),
        !switch_word(on).contains('\n'),
{
    reveal_strlit("yes");
    reveal_strlit("no");
    reveal_strlit("true");
    reveal_strlit("1");
    reveal_strlit("on");
    let s = switch_word(on);
    assert(trimmed(s) == s);
    assert(lower(s) =~= s);
    if !on {
        assert(s.len() != "yes"@.len());
        assert(s.len() != "true"@.len());
        assert(s.len() != "1"@.len());
        assert(s[0] != "on"@[0]);
    }
}

proof fn lemma_module(r: Reading, m: ModuleModel)
    requires
        can_be_written(m),
        closed_section(r) is Ok,
    ensures
        config_lines(r, lines_of_module(m)) matches Ok(s) && closed_section(s) == Ok::<
            Config,
            Seq<char>,
        >(
            ({
                let c = closed_section(r)->Ok_0;
                Config { modules: c.modules.push(m), ..c }
            }),
        ),
{
    reveal_with_fuel(config_lines, 6);
    lemma_keys();
    lemma_key_names();
    let c = closed_section(r)->Ok_0;
    let lines = lines_of_module(m);
    let none = Section { name: m.name, path: None, comment: None, read_only: None, list: None };
    let r1 = Reading { config: c, section: Some(none) };
    let s2 = Section { path: Some(m.path), ..none };
    let r2 = Reading { config: c, section: Some(s2) };
    let s3 = Section { read_only: Some(switch_word(m.read_only)), ..s2 };
    let r3 = Reading { config: c, section: Some(s3) };
    let s4 = Section { list: Some(switch_word(m.list)), ..s3 };
    let r4 = Reading { config: c, section: Some(s4) };
    lemma_switch_word(m.read_only);
    lemma_switch_word(m.list);
    lemma_header(r, m.name);
    lemma_setting(r1, "path"@, m.path);
    lemma_setting(r2, "read only"@, switch_word(m.read_only));
    lemma_setting(r3, "list"@, switch_word(m.list));
    let l0 = lines;
    let l1 = l0.skip(1);
    let l2 = l1.skip(1);
    let l3 = l2.skip(1);
    let l4 = l3.skip(1);
    assert(l1[0] == setting_line("path"@, m.path));
    assert(l2[0] == setting_line("read only"@, switch_word(m.read_only)));
    assert(l3[0] == setting_line("list"@, switch_word(m.list)));
    assert(config_lines(r, l0) == config_lines(r1, l1));
    assert(config_lines(r1, l1) == config_lines(r2, l2));
    assert(config_lines(r2, l2) == config_lines(r3, l3));
    assert(config_lines(r3, l3) == config_lines(r4, l4));
    if m.comment.len() > 0 {
        lemma_setting(r4, "comment"@, m.comment);
        assert(l4[0] == setting_line("comment"@, m.comment));
        assert(l4.skip(1).len() == 0);
        let s5 = Section { comment: Some(m.comment), ..s4 };
        let r5 = Reading { config: c, section: Some(s5) };
        assert(config_lines(r4, l4) == config_lines(r5, l4.skip(1)));
        assert(closed_section(r5)->Ok_0.modules =~= c.modules.push(m));
    } else {
        assert(l4.len() == 0);
        assert(m.comment =~= Seq::<char>::empty());
        assert(closed_section(r4)->Ok_0.modules =~= c.modules.push(m));
    }
}

proof fn lemma_modules(r: Reading, ms: Seq<ModuleModel>)
    requires
        forall|i: int| 0 <= i < ms.len() ==> can_be_written(#[trigger] ms[i]),
        closed_section(r) is Ok,
    ensures
        config_lines(r, lines_of_modules(ms)) matches Ok(s) && closed_section(s) == Ok::<
            Config,
            Seq<char>,
        >(
            ({
                let c = closed_section(r)->Ok_0;
                Config { modules: c.modules + ms, ..c }
            }),
        ),
    decreases ms.len(),
{
    let c = closed_section(r)->Ok_0;
    if ms.len() == 0 {
        assert(c.modules + ms =~= c.modules);
    } else {
        assert(can_be_written(ms[0]));
        lemma_module(r, ms[0]);
        let s = config_lines(r, lines_of_module(ms[0]))->Ok_0;
        assert forall|i: int| 0 <= i < ms.skip(1).len() implies can_be_written(
            #[trigger] ms.skip(1)[i],
        ) by {
            assert(can_be_written(ms[i + 1]));
        }
        lemma_modules(s, ms.skip(1));
        lemma_lines_concat(r, lines_of_module(ms[0]), lines_of_modules(ms.skip(1)));
        assert(c.modules.push(ms[0]) + ms.skip(1) =~= c.modules + ms);
    }
}

proof fn lemma_setting_is_line(key: Seq<char>, val: Seq<char>)
    requires
        !key.contains('\n'),
        !val.contains('\n'),
        val.len() > 0,
        is_tight(val),
    ensures
        can_be_line(setting_line(key, val)),
{
    let s = setting_line(key, val);
    assert(s.last() == val.last());
    if s.contains('\n') {
        let i = choose|i: int| 0 <= i < s.len() && s[i] == '\n';
        if i < key.len() {
            assert(key[i] == '\n');
        } else if i >= key.len() + 3 {
            assert(val[i - key.len() - 3] == '\n');
        }
    }
}

proof fn lemma_module_is_lines(m: ModuleModel)
    requires
        can_be_written(m),
    ensures
        forall|i: int|
            0 <= i < lines_of_module(m).len() ==> can_be_line(#[trigger] lines_of_module(m)[i]),
{
    reveal_strlit("path");
    reveal_strlit("comment");
    reveal_strlit("read only");
    reveal_strlit("list");
    let lines = lines_of_module(m);
    lemma_switch_word(m.read_only);
    lemma_switch_word(m.list);
    lemma_setting_is_line("path"@, m.path);
    lemma_setting_is_line("read only"@, switch_word(m.read_only));
    lemma_setting_is_line("list"@, switch_word(m.list));
    if m.comment.len() > 0 {
        lemma_setting_is_line("comment"@, m.comment);
    }
    let head = seq!['['] + m.name + seq![']'];
    assert(can_be_line(head)) by {
        assert(head.last() == ']');
        if head.contains('\n') {
            let i = choose|i: int| 0 <= i < head.len() && head[i] == '\n';
            assert(m.name[i - 1] == '\n');
        }
    }
    assert forall|i: int| 0 <= i < lines.len() implies can_be_line(#[trigger] lines[i]) by {
        if i == 0 {
            assert(lines[i] == head);
        }
    }
}

proof fn lemma_modules_are_lines(ms: Seq<ModuleModel>)
    requires
        forall|i: int| 0 <= i < ms.len() ==> can_be_written(#[trigger] ms[i]),
    ensures
        forall|i: int|
            0 <= i < lines_of_modules(ms).len() ==> can_be_line(#[trigger] lines_of_modules(ms)[i]),
    decreases ms.len(),
{
    if ms.len() > 0 {
        let a = lines_of_module(ms[0]);
        let b = lines_of_modules(ms.skip(1));
        assert(can_be_written(ms[0]));
        lemma_module_is_lines(ms[0]);
        assert forall|i: int| 0 <= i < ms.skip(1).len() implies can_be_written(
            #[trigger] ms.skip(1)[i],
        ) by {
            assert(can_be_written(ms[i + 1]));
        }
        lemma_modules_are_lines(ms.skip(1));
        assert forall|i: int| 0 <= i < (a + b).len() implies can_be_line(#[trigger] (a + b)[i]) by {
            if i < a.len() {
                assert((a + b)[i] == a[i]);
            } else {
                assert((a + b)[i] == b[i - a.len()]);
            }
        }
    }
}

/// Modules that are written down are read as those modules: each with its own
/// path, comment and switches, in the order in which they stand.
pub proof fn modules_are_read_back(ms: Seq<ModuleModel>)
    requires
        forall|i: int| 0 <= i < ms.len() ==> can_be_written(#[trigger] ms[i]),
    ensures
        config_of(with_ends(lines_of_modules(ms))) == Ok::<Config, Seq<char>>(
            Config { motd_file: None, port: None, address: None, modules: ms },
        ),
{
    let start = Reading { config: no_config(), section: None };
    lemma_modules(start, ms);
    lemma_modules_are_lines(ms);
    lines_are_found_again(lines_of_modules(ms));
    assert(Seq::<ModuleModel>::empty() + ms =~= ms);
}

/// The lines in front of the modules set the port, the address and the message
/// of the day, each on its own.
pub proof fn global_settings_are_read(c: Config, port: u16, val: Seq<char>)
    requires
        val.len() > 0,
        is_tight(val),
    ensures
        ({
            let r = Reading { config: c, section: None };
            &&& config_step(r, setting_line("port"@, decimal(port as nat))) == Ok::<
                Reading,
                Seq<char>,
            >(Reading { config: Config { port: Some(port as nat), ..c }, section: None })
            &&& config_step(r, setting_line("address"@, val)) == Ok::<Reading, Seq<char>>(
                Reading { config: Config { address: Some(val), ..c }, section: None },
            )
            &&& config_step(r, setting_line("motd file"@, val)) == Ok::<Reading, Seq<char>>(
                Reading { config: Config { motd_file: Some(val), ..c }, section: None },
            )
        }),
{
    let r = Reading { config: c, section: None };
    lemma_keys();
    lemma_key_names();
    let digits = decimal(port as nat);
    crate::laws::shown::decimal_is_read_back(port as nat);
    assert('0' <= digits[0] <= '9');
    assert('0' <= digits[digits.len() - 1] <= '9');
    assert(is_tight(digits));
    written_number_is_read(port as nat, 0xffff);
    lemma_setting(r, "port"@, digits);
    lemma_setting(r, "address"@, val);
    lemma_setting(r, "motd file"@, val);
}

/// A module can be written to and is not shown only where its section says
/// so: without a word on it, it is read-only and listed.  A section without a
/// path is no module.
pub proof fn silent_section_is_read_only(c: Config, s: Section)
    ensures
        ({
            let r = closed_section(Reading { config: c, section: Some(s) });
            &&& s.path is None ==> r == Err::<Config, Seq<char>>(s.name)
            &&& s.path is Some ==> r is Ok && r->Ok_0.modules.len() == c.modules.len() + 1
            &&& s.path is Some && s.read_only is None ==> r->Ok_0.modules.last().read_only
            &&& s.path is Some && s.list is None ==> r->Ok_0.modules.last().list
            &&& s.path is Some ==> r->Ok_0.modules.last().path == s.path->0
                && r->Ok_0.modules.last().name == s.name
        }),
{
}

/// Upper and lower case say yes alike, and white space around a word does not
/// matter.
pub proof fn yes_is_yes_in_any_case(s: Seq<char>)
    requires
        is_tight(s),
    ensures
        says_yes(lower(s)) == says_yes(s),
        says_yes(seq![' '] + s) == says_yes(s),
{
    let low = lower(s);
    assert forall|i: int| 0 <= i < s.len() implies is_white(#[trigger] low[i]) == is_white(s[i]) by {
        lemma_case_is_not_white(s[i]);
    }
    if s.len() > 0 {
        assert(low.last() == lower_char(s.last()));
        assert(is_white(low[0]) == is_white(s[0]));
        assert(is_white(low[s.len() - 1]) == is_white(s[s.len() - 1]));
    }
    assert(trimmed(low) == low);
    assert(trimmed(s) == s);
    assert(lower(low) =~= low) by {
        assert forall|i: int| 0 <= i < s.len() implies lower_char(lower_char(s[i])) == lower_char(
            s[i],
        ) by {
            lemma_case_is_not_white(s[i]);
        }
    }
    let t = seq![' '] + s;
    assert(t.skip(1) =~= s);
    assert(t[0] == ' ');
    assert(trim_front(t) == trim_front(s));
}

proof fn lemma_case_is_not_white(c: char)
    ensures
        is_white(lower_char(c)) == is_white(c),
        lower_char(lower_char(c)) == lower_char(c),
        'A' <= c <= 'Z' ==> 'a' <= lower_char(c) <= 'z' && lower_char(c) as int - 'a' as int
            == c as int - 'A' as int,
        !('A' <= c <= 'Z') ==> lower_char(c) == c,
{
}

// ---------------------------------------------------------------------------
// The conversation
// ---------------------------------------------------------------------------

proof fn lemma_module_at(ms: Seq<ModuleModel>, name: Seq<char>, k: nat)
    ensures
        match module_at(ms, name, k) {
            Some(i) => k <= i < ms.len() && ms[i].name == name && forall|j: int|
                k <= j < i ==> (#[trigger] ms[j]).name != name,
            None => forall|j: int| k <= j < ms.len() ==> (#[trigger] ms[j]).name != name,
        },
    decreases ms.len() - k,
{
    if k < ms.len() && ms[k as int].name != name {
        lemma_module_at(ms, name, k + 1);
    }
}

/// A client is granted a module exactly where one has the name that it asks
/// for; a name that starts with a hash is never one.
pub proof fn module_is_granted_by_name(config: Config, name: Seq<char>, k: int)
    requires
        config.modules.len() <= usize::MAX,
        0 <= k < config.modules.len(),
    ensures
        config.modules[k].name == name && name.len() > 0 && name[0] != '#' ==> on_module(
            config,
            name,
        ).1 is Grant,
        on_module(config, name).1 is Grant ==> name.len() > 0 && name[0] != '#' && exists|j: int|
            0 <= j < config.modules.len() && (#[trigger] config.modules[j]).name == name,
        name.len() == 0 ==> on_module(config, name).1 is List,
{
    reveal_strlit("#list");
    lemma_module_at(config.modules, name, 0);
}

/// A module that is not listed is left out of the listing, and one that is
/// listed is in it: its line is what it adds.
pub proof fn only_listed_modules_are_shown(ms: Seq<ModuleModel>, m: ModuleModel)
    ensures
        !m.list ==> module_lines(ms.push(m)) == module_lines(ms),
        m.list ==> ({
            let all = module_lines(ms.push(m));
            let n = module_lines(ms).len() as int;
            &&& all.len() >= n + m.name.len() + m.comment.len() + 2
            &&& all.take(n) == module_lines(ms)
            &&& all.subrange(n, n + m.name.len()) == m.name
            &&& all.last() == '\n'
            &&& all.subrange(all.len() - 1 - m.comment.len(), all.len() - 1) == m.comment
        }),
{
    reveal_strlit("\t");
    reveal_strlit("\n");
    let all = module_lines(ms.push(m));
    assert(ms.push(m).drop_last() =~= ms);
    if m.list {
        let n = module_lines(ms).len() as int;
        assert(all.take(n) =~= module_lines(ms));
        assert(all.subrange(n, n + m.name.len()) =~= m.name);
        assert(all.subrange(all.len() - 1 - m.comment.len(), all.len() - 1) =~= m.comment);
    }
}

proof fn lemma_greeting_text()
    ensures
        begins_with(hello_text(), "@RSYNCD:"@),
        crate::transport::daemon::greeting_protocol(without_line_end(hello_text())) == Some(
            PROTOCOL_VERSION as nat,
        ),
{
    reveal_strlit("@RSYNCD: ");
    reveal_strlit("@RSYNCD:");
    reveal_strlit(".0\n");
    let digits = decimal(PROTOCOL_VERSION as nat);
    let s = hello_text();
    assert(s.take(8) =~= "@RSYNCD:"@);
    let body = "@RSYNCD: "@ + digits + seq!['.', '0'];
    assert(s =~= body + seq!['\n']);
    line_ends_go(body, seq!['\n']);
    assert(body.take(9) =~= "@RSYNCD: "@);
    let rest = body.skip(9);
    assert(rest =~= digits + seq!['.', '0']);
    crate::laws::shown::decimal_is_read_back(PROTOCOL_VERSION as nat);
    lemma_major(digits, seq!['.', '0']);
    written_number_is_read(PROTOCOL_VERSION as nat, u32::MAX as nat);
}

pub(crate) proof fn lemma_major(digits: Seq<char>, tail: Seq<char>)
    requires
        forall|i: int| 0 <= i < digits.len() ==> '0' <= #[trigger] digits[i] <= '9',
        tail.len() > 0,
        tail[0] == '.' || tail[0] == ' ',
    ensures
        major_part(digits + tail) == digits,
    decreases digits.len(),
{
    let s = digits + tail;
    if digits.len() > 0 {
        assert('0' <= digits[0] <= '9');
        assert(s.skip(1) =~= digits.skip(1) + tail);
        assert forall|i: int| 0 <= i < digits.skip(1).len() implies '0'
            <= #[trigger] digits.skip(1)[i] <= '9' by {
            assert('0' <= digits[i + 1] <= '9');
        }
        lemma_major(digits.skip(1), tail);
        assert(seq![digits[0]] + digits.skip(1) =~= digits);
    } else {
        assert(s[0] == tail[0]);
        assert(digits =~= Seq::<char>::empty());
    }
}

/// Both ends open with the same line, and each takes the other's: the daemon
/// waits for the name of a module, and the client, settled on the protocol,
/// sends the name of its module.
pub proof fn greetings_are_taken(
    config: Config,
    module: Seq<char>,
    args: Seq<Seq<char>>,
    buffered: usize,
)
    ensures
        session_step(Stage::Greeting, config, hello_text()).0 == Stage::Module,
        client_step(ClientState::Greeting, module, args, hello_text(), buffered) == (
            ClientState::Approval(PROTOCOL_VERSION),
            Action::Send(encode_utf8(module.push('\n'))),
        ),
{
    reveal_strlit("\n");
    lemma_greeting_text();
    assert(module + "\n"@ =~= module.push('\n'));
}

/// The line with which a client asks for a module gets it the first module of
/// that name, and the daemon's answer makes the client send its arguments.
pub proof fn granted_client_sends_arguments(
    config: Config,
    k: int,
    protocol: u32,
    args: Seq<Seq<char>>,
)
    requires
        config.modules.len() <= usize::MAX,
        0 <= k < config.modules.len(),
        config.modules[k].name.len() > 0,
        config.modules[k].name[0] != '#',
        !config.modules[k].name.contains('\n'),
        !config.modules[k].name.contains('\r'),
    ensures
        ({
            let name = config.modules[k].name;
            let (stage, reply) = session_step(Stage::Module, config, name.push('\n'));
            &&& stage matches Stage::Args(i) && i <= k && config.modules[i as int].name == name
            &&& reply matches Reply::Grant(line) && client_step(
                ClientState::Approval(protocol),
                name,
                args,
                line,
                0,
            ) == (ClientState::Ready(protocol), Action::Send(argv_bytes(args)))
        }),
{
    reveal_strlit("#list");
    reveal_strlit("@RSYNCD: OK\n");
    reveal_strlit("@RSYNCD: ");
    reveal_strlit("OK");
    let name = config.modules[k].name;
    assert(name.contains(name.last()));
    assert(name.push('\n') =~= name + seq!['\n']);
    line_ends_go(name, seq!['\n']);
    lemma_module_at(config.modules, name, 0);
    let body = "@RSYNCD: "@ + "OK"@;
    assert("@RSYNCD: OK\n"@ =~= body + seq!['\n']);
    line_ends_go(body, seq!['\n']);
    assert(body.take(9) =~= "@RSYNCD: "@);
    assert(body.skip(9) =~= "OK"@);
}

/// A client that asks for a module that is not there is refused, and told so:
/// it gives up with the daemon's words.
pub proof fn refused_client_gives_up(
    config: Config,
    name: Seq<char>,
    protocol: u32,
    args: Seq<Seq<char>>,
    buffered: usize,
)
    requires
        name.len() > 0,
        name[0] != '#',
        !name.contains('\n'),
        !name.contains('\r'),
        forall|j: int| 0 <= j < config.modules.len() ==> (#[trigger] config.modules[j]).name != name,
    ensures
        ({
            let (stage, reply) = session_step(Stage::Module, config, name.push('\n'));
            &&& stage == Stage::Closed
            &&& reply matches Reply::Refuse(line) && client_step(
                ClientState::Approval(protocol),
                name,
                args,
                line,
                buffered,
            ) == (
                ClientState::Closed,
                Action::Fail(
                    Failure::Rejected(" Unknown module '"@ + name + seq!['\'']),
                ),
            )
        }),
{
    reveal_strlit("@ERROR: Unknown module '");
    reveal_strlit(" Unknown module '");
    reveal_strlit("'\n");
    reveal_strlit("@ERROR");
    reveal_strlit("@RSYNCD: ");
    reveal_strlit(":");
    reveal_strlit("#list");
    assert(name.contains(name.last()));
    assert(name.push('\n') =~= name + seq!['\n']);
    line_ends_go(name, seq!['\n']);
    lemma_module_at(config.modules, name, 0);
    let line = "@ERROR: Unknown module '"@ + name + "'\n"@;
    let body = "@ERROR: Unknown module '"@ + name + seq!['\''];
    assert(line =~= body + seq!['\n']);
    line_ends_go(body, seq!['\n']);
    assert(body[1] == 'E');
    assert("@RSYNCD: "@[1] == 'R');
    assert(!begins_with(body, "@RSYNCD: "@)) by {
        if begins_with(body, "@RSYNCD: "@) {
            assert(body.take(9)[1] == 'E');
        }
    }
    assert(body.take(6) =~= "@ERROR"@);
    let rest = body.skip(6);
    assert(rest.take(1) =~= ":"@);
    assert(rest.skip(1) =~= " Unknown module '"@ + name + seq!['\'']);
}

/// A client that asks for nothing in particular gets the list of modules, and
/// the line at the end of the list ends the conversation.
pub proof fn listing_ends_the_conversation(
    config: Config,
    motd: Option<Seq<char>>,
    protocol: u32,
    module: Seq<char>,
    args: Seq<Seq<char>>,
    buffered: usize,
)
    ensures
        session_step(Stage::Module, config, seq!['\n']) == (Stage::Closed, Reply::List),
        ({
            let s = listing(config, motd);
            let last = s.skip(s.len() - 14);
            s.len() >= 14 && client_step(
                ClientState::Approval(protocol),
                module,
                args,
                last,
                buffered,
            ) == (ClientState::Closed, Action::Fail(Failure::NoAccess))
        }),
{
    reveal_strlit("@RSYNCD: EXIT\n");
    reveal_strlit("@RSYNCD: ");
    reveal_strlit("EXIT");
    reveal_strlit("OK");
    let none = Seq::<char>::empty();
    assert(seq!['\n'] =~= none + seq!['\n']);
    line_ends_go(none, seq!['\n']);
    let s = listing(config, motd);
    let last = s.skip(s.len() - 14);
    let body = "@RSYNCD: "@ + "EXIT"@;
    assert(last =~= "@RSYNCD: EXIT\n"@);
    assert(last =~= body + seq!['\n']);
    line_ends_go(body, seq!['\n']);
    assert(body.take(9) =~= "@RSYNCD: "@);
    assert(body.skip(9) =~= "EXIT"@);
    assert("EXIT"@.len() != "OK"@.len());
}

/// A conversation that does not open with a greeting is refused at once.
pub proof fn strangers_are_refused(config: Config, line: Seq<char>)
    requires
        line.len() == 0 || line[0] != '@',
    ensures
        session_step(Stage::Greeting, config, line).0 == Stage::Closed,
        session_step(Stage::Greeting, config, line).1 is Refuse,
{
    reveal_strlit("@RSYNCD:");
    if begins_with(line, "@RSYNCD:"@) {
        assert(line.take(8)[0] == '@');
    }
}

} // verus!
