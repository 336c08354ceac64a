//! Configured service entries and their resolution against a hierarchy.

use vstd::prelude::*;
use crate::order::{ascending, lemma_ascending, sort};
use crate::proc::ProcessMap;
use crate::text::{
    chars_of, join, join_words, lines_of, parse_number, parse_u32, split_lines, split_words, trim,
    trim_bounds, views_of, words_of,
};
use crate::tree::ProcessTree;

verus! {

/// One configured service entry, as a mathematical value.
pub struct ItemSpec {
    /// Display label.
    pub name: Seq<char>,
    /// Whether the absence of any match is an error.
    pub required: bool,
    /// Whether several simultaneous matches are acceptable.
    pub multiple: bool,
    /// Path of the PID file, if one is configured.
    pub pidfile: Option<Seq<char>>,
    /// Command pattern, if one is configured.
    pub command: Option<Seq<char>>,
}

/// One line of the result: the entry's name, the resolved pid (zero when
/// the service is not running) and a diagnostic, empty when all is well.
pub type Outcome = (Seq<char>, u32, Seq<char>);

impl ItemSpec {
    /// The pattern that command lines are matched against: the configured
    /// one, or the name where none is configured.
    pub open spec fn pattern(self) -> Seq<char> {
        match self.command {
            Some(command) => command,
            None => self.name,
        }
    }

    /// The service the PID file leads to. `content` is what was read from
    /// the file, if it could be read. There is no such service unless a PID
    /// file is configured, was read, holds a number once trimmed, and that
    /// number is a known process.
    pub open spec fn by_pidfile(self, t: ProcessTree, content: Option<Seq<char>>) -> Option<u32> {
        if self.pidfile is Some && content is Some {
            match parse_u32(trim(content->0)) {
                Some(pid) => t.service_by_pid(pid),
                None => None,
            }
        } else {
            None
        }
    }

    /// The diagnostic shared by all command matches when there are `hits`
    /// of them. A configured PID file that led nowhere takes precedence over
    /// a surplus of matches.
    pub open spec fn diagnostic(self, hits: nat) -> Seq<char> {
        if self.pidfile is Some {
            "invalid PID file "@ + self.pidfile->0
        } else if hits > 1 && !self.multiple {
            "multiple matching processes"@
        } else {
            Seq::empty()
        }
    }

    /// The result lines for this entry. A service found through the PID
    /// file is the single, healthy result. Otherwise the services found by
    /// command pattern are listed in ascending pid order under one shared
    /// diagnostic; if there are none, a required entry is reported as not
    /// running and an optional one yields nothing.
    pub open spec fn matches(self, t: ProcessTree, content: Option<Seq<char>>) -> Seq<Outcome> {
        match self.by_pidfile(t, content) {
            Some(pid) => seq![(self.name, pid, Seq::empty())],
            None => {
                let hits = ascending(t.services_by_cmd(self.pattern()));
                if hits.len() == 0 {
                    if self.required {
                        seq![(self.name, 0u32, "service not running"@)]
                    } else {
                        Seq::empty()
                    }
                } else {
                    hits.map_values(|pid: u32| (self.name, pid, self.diagnostic(hits.len())))
                }
            },
        }
    }
}

/// The characters that may precede the name of an entry.
pub open spec fn is_marker(c: char) -> bool {
    c == '-' || c == '+' || c == '*'
}

/// `s` without its leading markers.
pub open spec fn strip_markers(s: Seq<char>) -> Seq<char>
    decreases s.len(),
{
    if s.len() > 0 && is_marker(s[0]) {
        strip_markers(s.drop_first())
    } else {
        s
    }
}

/// The entry that the words of one line declare. The first word is the
/// name behind its markers: `-` and `*` make the entry optional, `+` and
/// `*` allow several matches. The second word is the PID file unless it is
/// `-`; all further words, joined by single spaces, are the command
/// pattern. A line without words, or whose first word starts with `#`,
/// declares nothing.
pub open spec fn item_of(words: Seq<Seq<char>>) -> Option<ItemSpec> {
    if words.len() == 0 || words[0].len() == 0 || words[0][0] == '#' {
        None
    } else {
        let title = words[0];
        let command = if words.len() > 2 {
            join_words(words.skip(2))
        } else {
            Seq::empty()
        };
        Some(
            ItemSpec {
                name: strip_markers(title),
                required: !(title[0] == '-' || title[0] == '*'),
                multiple: title[0] == '+' || title[0] == '*',
                pidfile: if words.len() > 1 && words[1] != seq!['-'] {
                    Some(words[1])
                } else {
                    None
                },
                command: if command.len() > 0 {
                    Some(command)
                } else {
                    None
                },
            },
        )
    }
}

/// The entry declared by one line of a configuration source.
pub open spec fn parse_line(line: Seq<char>) -> Option<ItemSpec> {
    item_of(words_of(line))
}

/// The entries declared by one configuration source, in line order.
pub open spec fn parse_text(text: Seq<char>) -> Seq<ItemSpec> {
    lines_of(text).filter_map(|line: Seq<char>| parse_line(line))
}

/// The entries declared by several sources, in source order.
pub open spec fn parse_all(sources: Seq<Seq<char>>) -> Seq<ItemSpec>
    decreases sources.len(),
{
    if sources.len() == 0 {
        Seq::empty()
    } else {
        parse_all(sources.drop_last()) + parse_text(sources.last())
    }
}

/// One configured service entry.
pub struct ConfigItem {
    name: String,
    required: bool,
    multiple: bool,
    pidfile: Option<String>,
    command: Option<String>,
}

impl View for ConfigItem {
    type V = ItemSpec;

    closed spec fn view(&self) -> ItemSpec {
        ItemSpec {
            name: self.name@,
            required: self.required,
            multiple: self.multiple,
            pidfile: match self.pidfile {
                Some(path) => Some(path@),
                None => None,
            },
            command: match self.command {
                Some(command) => Some(command@),
                None => None,
            },
        }
    }
}

/// The characters of an optional text.
pub open spec fn text_of(content: Option<&str>) -> Option<Seq<char>> {
    match content {
        Some(text) => Some(text@),
        None => None,
    }
}

/// The result lines as mathematical values.
pub open spec fn outcomes(found: Seq<(&String, u32, String)>) -> Seq<Outcome> {
    found.map_values(|line: (&String, u32, String)| (line.0@, line.1, line.2@))
}

/// The view of an optional entry.
pub open spec fn item_view(item: Option<ConfigItem>) -> Option<ItemSpec> {
    match item {
        Some(item) => Some(item@),
        None => None,
    }
}

impl ConfigItem {
    /// Reads the entry that one line of a configuration source declares.
    pub fn parse(line: &str) -> (item: Option<ConfigItem>)
        ensures
            item_view(item) == parse_line(line@),
    {
        let words = split_words(line);
        let ghost all = views_of(words@);
        if words.len() == 0 {
            return None;
        }
        let title = chars_of(words[0].as_str());
        assert(title@ == all[0]);
        if title.len() == 0 || title[0] == '#' {
            return None;
        }
        let mut skip: usize = 0;
        assert(title@.skip(0) == title@);
        while skip < title.len() && (title[skip] == '-' || title[skip] == '+' || title[skip] == '*')
            invariant
                skip <= title.len(),
                strip_markers(title@) == strip_markers(title@.skip(skip as int)),
            decreases title.len() - skip,
        {
            assert(title@.skip(skip as int).drop_first() == title@.skip(skip + 1));
            skip += 1;
        }
        let name = String::from_str(words[0].as_str().substring_char(skip, title.len()));
        assert(name@ == strip_markers(title@)) by {
            assert(title@.skip(skip as int) == title@.subrange(skip as int, title@.len() as int));
        }
        let required = !(title[0] == '-' || title[0] == '*');
        let multiple = title[0] == '+' || title[0] == '*';
        let mut pidfile: Option<String> = None;
        if words.len() > 1 {
            let second = chars_of(words[1].as_str());
            if !(second.len() == 1 && second[0] == '-') {
                pidfile = Some(words[1].clone());
            } else {
                assert(second@ =~= seq!['-']);
            }
        }
        let mut rest: Vec<String> = Vec::new();
        let mut i: usize = 2;
        while i < words.len()
            invariant
                2 <= i,
                all == views_of(words@),
                i <= words.len() ==> views_of(rest@) == all.subrange(2, i as int),
                i > words.len() ==> i == 2 && rest@.len() == 0,
            decreases words.len() - i,
        {
            let ghost before = views_of(rest@);
            rest.push(words[i].clone());
            assert(views_of(rest@) =~= before.push(all[i as int]));
            assert(all.subrange(2, i + 1) =~= all.subrange(2, i as int).push(all[i as int]));
            i += 1;
        }
        let cmd = join(&rest);
        proof {
            if words.len() > 2 {
                assert(all.subrange(2, words.len() as int) == all.skip(2));
            } else {
                assert(views_of(rest@) =~= Seq::<Seq<char>>::empty());
            }
        }
        let command = if cmd.as_str().is_empty() {
            None
        } else {
            Some(cmd)
        };
        let item = ConfigItem { name, required, multiple, pidfile, command };
        proof {
            assert(item_of(all) is Some);
        }
        Some(item)
    }

    /// Resolves this entry against `procs`. `pidfile_content` is the text of
    /// the configured PID file, or `None` if it could not be read.
    pub fn matches<'a>(&'a self, procs: &ProcessMap, pidfile_content: Option<&str>) -> (found: Vec<
        (&'a String, u32, String),
    >)
        ensures
            outcomes(found@) == self@.matches(procs@, text_of(pidfile_content)),
    {
        let mut found: Vec<(&'a String, u32, String)> = Vec::new();
        let cmd: &String = match &self.command {
            Some(command) => command,
            None => &self.name,
        };
        let by_file: Option<u32> = match (&self.pidfile, pidfile_content) {
            (Some(_), Some(text)) => {
                let chars = chars_of(text);
                let (from, to) = trim_bounds(&chars);
                match parse_number(&chars, from, to) {
                    Some(pid) => procs.service_by_pid(&pid),
                    None => None,
                }
            },
            _ => None,
        };
        let by_command = sort(&procs.services_by_cmd(cmd.as_str()));
        assert(by_file == self@.by_pidfile(procs@, text_of(pidfile_content)));
        assert(by_command@ == ascending(procs@.services_by_cmd(self@.pattern())));
        if let Some(pid) = by_file {
            found.push((&self.name, pid, String::new()));
            assert(outcomes(found@) =~= seq![(self@.name, pid, Seq::empty())]);
        } else if by_command.len() == 0 && self.required {
            found.push((&self.name, 0, String::from_str("service not running")));
            assert(outcomes(found@) =~= seq![(self@.name, 0u32, "service not running"@)]);
        } else if by_command.len() > 0 {
            let mut msg = String::new();
            if let Some(path) = &self.pidfile {
                msg = String::from_str("invalid PID file ");
                msg.append(path.as_str());
            } else if by_command.len() > 1 && !self.multiple {
                msg = String::from_str("multiple matching processes");
            }
            assert(msg@ == self@.diagnostic(by_command@.len()));
            let mut i: usize = 0;
            while i < by_command.len()
                invariant
                    i <= by_command.len(),
                    outcomes(found@) == by_command@.take(i as int).map_values(
                        |pid: u32| (self@.name, pid, msg@),
                    ),
                decreases by_command.len() - i,
            {
                let ghost before = found@;
                let line = msg.clone();
                found.push((&self.name, by_command[i], line));
                assert(outcomes(found@) =~= outcomes(before).push((self@.name, by_command@[i as int], msg@)));
                assert(outcomes(found@) =~= by_command@.take(i + 1).map_values(
                    |pid: u32| (self@.name, pid, msg@),
                ));
                i += 1;
            }
            assert(by_command@.take(i as int) == by_command@);
        } else {
            assert(outcomes(found@) =~= Seq::empty());
        }
        found
    }
}

/// The configured service entries, in declaration order.
pub struct Config(Vec<ConfigItem>);

impl View for Config {
    type V = Seq<ItemSpec>;

    closed spec fn view(&self) -> Seq<ItemSpec> {
        self.0@.map_values(|item: ConfigItem| item@)
    }
}

/// What was read for the entry at `index`: nothing where no text is
/// supplied for it.
pub open spec fn content_at(contents: Seq<Option<String>>, index: int) -> Option<Seq<char>> {
    if 0 <= index < contents.len() {
        match contents[index] {
            Some(text) => Some(text@),
            None => None,
        }
    } else {
        None
    }
}

/// The result lines of the first `n` entries, one entry after the other.
pub open spec fn all_upto(
    items: Seq<ItemSpec>,
    t: ProcessTree,
    contents: Seq<Option<String>>,
    n: nat,
) -> Seq<Outcome>
    decreases n,
{
    if n == 0 {
        Seq::empty()
    } else {
        all_upto(items, t, contents, (n - 1) as nat) + items[n - 1].matches(
            t,
            content_at(contents, n - 1),
        )
    }
}

impl Config {
    /// Reads the entries declared by `sources`, which are the texts of the
    /// configuration files in the order in which they apply.
    pub fn new(sources: &Vec<String>) -> (config: Config)
        ensures
            config@ == parse_all(views_of(sources@)),
    {
        let ghost texts = views_of(sources@);
        let mut items: Vec<ConfigItem> = Vec::new();
        let mut s: usize = 0;
        assert(texts.take(0) =~= Seq::<Seq<char>>::empty());
        while s < sources.len()
            invariant
                s <= sources.len(),
                texts == views_of(sources@),
                items@.map_values(|item: ConfigItem| item@) == parse_all(texts.take(s as int)),
            decreases sources.len() - s,
        {
            let lines = split_lines(sources[s].as_str());
            let ghost before = items@.map_values(|item: ConfigItem| item@);
            let ghost all = views_of(lines@);
            let ghost f = |line: Seq<char>| parse_line(line);
            let mut l: usize = 0;
            assert(all.take(0).filter_map(f) =~= Seq::<ItemSpec>::empty());
            while l < lines.len()
                invariant
                    l <= lines.len(),
                    all == views_of(lines@),
                    f == |line: Seq<char>| parse_line(line),
                    items@.map_values(|item: ConfigItem| item@) == before + all.take(
                        l as int,
                    ).filter_map(f),
                decreases lines.len() - l,
            {
                let ghost sofar = items@.map_values(|item: ConfigItem| item@);
                proof {
                    all.lemma_filter_map_take_succ(f, l as int);
                }
                match ConfigItem::parse(lines[l].as_str()) {
                    Some(item) => {
                        items.push(item);
                        assert(items@.map_values(|item: ConfigItem| item@) =~= sofar.push(item@));
                    },
                    None => {},
                }
                l += 1;
            }
            proof {
                assert(all.take(l as int) == all);
                assert(texts.take(s + 1).drop_last() == texts.take(s as int));
                assert(texts.take(s + 1).last() == sources@[s as int]@);
            }
            s += 1;
        }
        assert(texts.take(s as int) == texts);
        Config(items)
    }

    /// A configuration without entries.
    pub fn empty() -> (config: Config)
        ensures
            config@ == Seq::<ItemSpec>::empty(),
    {
        let config = Config(Vec::new());
        assert(config@ =~= Seq::<ItemSpec>::empty());
        config
    }

    /// The PID file of each entry, in declaration order.
    pub fn pidfiles(&self) -> (paths: Vec<Option<String>>)
        ensures
            paths@.len() == self@.len(),
            forall|i: int| 0 <= i < paths@.len() ==> content_at(paths@, i) == self@[i].pidfile,
    {
        let mut paths: Vec<Option<String>> = Vec::new();
        let mut i: usize = 0;
        while i < self.0.len()
            invariant
                i <= self.0.len(),
                paths@.len() == i,
                forall|k: int| 0 <= k < i ==> content_at(paths@, k) == self@[k].pidfile,
            decreases self.0.len() - i,
        {
            let path = match &self.0[i].pidfile {
                Some(path) => Some(path.clone()),
                None => None,
            };
            let ghost before = paths@;
            paths.push(path);
            assert forall|k: int| 0 <= k < i + 1 implies content_at(paths@, k)
                == self@[k].pidfile by {
                if k < i {
                    assert(content_at(before, k) == self@[k].pidfile);
                }
            }
            i += 1;
        }
        paths
    }

    /// Resolves every entry against `procs`, in declaration order.
    /// `pidfile_contents` holds, per entry, the text of its PID file, or
    /// `None` where there is none or it could not be read.
    pub fn all<'a>(&'a self, procs: &ProcessMap, pidfile_contents: &Vec<Option<String>>) -> (found:
        Vec<(&'a String, u32, String)>)
        ensures
            outcomes(found@) == all_upto(self@, procs@, pidfile_contents@, self@.len()),
    {
        let mut found: Vec<(&'a String, u32, String)> = Vec::new();
        let mut i: usize = 0;
        assert(outcomes(found@) =~= Seq::<Outcome>::empty());
        while i < self.0.len()
            invariant
                i <= self.0.len(),
                outcomes(found@) == all_upto(self@, procs@, pidfile_contents@, i as nat),
            decreases self.0.len() - i,
        {
            let content: Option<&str> = if i < pidfile_contents.len() {
                match &pidfile_contents[i] {
                    Some(text) => Some(text.as_str()),
                    None => None,
                }
            } else {
                None
            };
            assert(text_of(content) == content_at(pidfile_contents@, i as int));
            let mut lines = self.0[i].matches(procs, content);
            let ghost before = found@;
            let ghost added = lines@;
            found.append(&mut lines);
            assert(outcomes(found@) =~= outcomes(before) + outcomes(added));
            i += 1;
        }
        found
    }
}

/// No known process has a command line that `pattern` matches.
pub open spec fn unmatched(t: ProcessTree, pattern: Seq<char>) -> bool {
    forall|pid: u32| #[trigger]
        t.info.contains_key(pid) ==> !crate::pattern::command_matches(t.info[pid].cmd, pattern)
}

/// Where no command line matches, the search by command finds nothing.
pub proof fn lemma_unmatched_finds_nothing(t: ProcessTree, pattern: Seq<char>, pids: Seq<u32>)
    requires
        unmatched(t, pattern),
    ensures
        pids.filter_map(t.resolve(pattern)).len() == 0,
    decreases pids.len(),
{
    if pids.len() > 0 {
        lemma_unmatched_finds_nothing(t, pattern, pids.drop_last());
        assert(!t.info.contains_key(pids.last()) || !crate::pattern::command_matches(
            t.info[pids.last()].cmd,
            pattern,
        ));
    }
}

/// A PID file that names a known process decides the result alone: one
/// healthy line for the service of that process, whatever the command
/// pattern would have matched.
pub proof fn law_pidfile_wins(item: ItemSpec, t: ProcessTree, content: Seq<char>, pid: u32)
    requires
        item.pidfile is Some,
        parse_u32(trim(content)) == Some(pid),
        t.info.contains_key(pid),
    ensures
        item.matches(t, Some(content)) == seq![(item.name, t.as_service(pid), Seq::<char>::empty())],
{
}

/// A required entry without PID file whose pattern matches no process
/// yields the single line that reports it as not running.
pub proof fn law_required_missing(item: ItemSpec, t: ProcessTree, content: Option<Seq<char>>)
    requires
        item.required,
        item.pidfile is None,
        unmatched(t, item.pattern()),
    ensures
        item.matches(t, content) == seq![(item.name, 0u32, "service not running"@)],
{
    lemma_unmatched_finds_nothing(t, item.pattern(), t.order);
    lemma_ascending(t.services_by_cmd(item.pattern()));
}

/// An optional entry that resolves neither by PID file nor by command
/// yields nothing.
pub proof fn law_optional_missing(item: ItemSpec, t: ProcessTree, content: Option<Seq<char>>)
    requires
        !item.required,
        item.by_pidfile(t, content) is None,
        unmatched(t, item.pattern()),
    ensures
        item.matches(t, content) == Seq::<Outcome>::empty(),
{
    lemma_unmatched_finds_nothing(t, item.pattern(), t.order);
    lemma_ascending(t.services_by_cmd(item.pattern()));
}

/// Without a PID file, an entry whose pattern matches some processes
/// yields one line for each of them. Every line is healthy if several
/// matches are allowed or there is just one; otherwise every line carries
/// the warning about multiple matches.
pub proof fn law_multiple_matches(item: ItemSpec, t: ProcessTree, content: Option<Seq<char>>)
    requires
        item.pidfile is None,
        t.services_by_cmd(item.pattern()).len() > 0,
    ensures
        item.matches(t, content).len() == t.services_by_cmd(item.pattern()).len(),
        forall|i: int|
            0 <= i < item.matches(t, content).len() ==> {
                let line = #[trigger] item.matches(t, content)[i];
                &&& line.0 == item.name
                &&& line.1 == ascending(t.services_by_cmd(item.pattern()))[i]
                &&& line.2 == if item.multiple || item.matches(t, content).len() == 1 {
                    Seq::<char>::empty()
                } else {
                    "multiple matching processes"@
                }
            },
{
    lemma_ascending(t.services_by_cmd(item.pattern()));
}

} // verus!
