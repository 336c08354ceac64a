//! The text of a report in JSON form, produced piece by piece.
//!
//! A `Format` value tracks where the output stands: how deep it is nested,
//! whether members go on lines of their own, and whether a separator is due.
//! Each operation returns the text to emit and moves the state on. In `Text`
//! form the JSON operations emit nothing.

use vstd::prelude::*;

verus! {

/// The output form of a report.
pub enum Format {
    /// Plain text for a terminal.
    Text,
    /// JSON. `indent` is the current nesting depth in columns, `nl` says
    /// whether the next member starts a new line, and `sep` whether a comma
    /// must precede it.
    Json { indent: usize, nl: bool, sep: bool },
}

/// `n` spaces.
pub open spec fn spaces(n: nat) -> Seq<char>
    decreases n,
{
    if n == 0 {
        Seq::empty()
    } else {
        spaces((n - 1) as nat) + " "@
    }
}

/// What separates a member from what precedes it: a comma if `sep`, then
/// either a line break with `indent` spaces if `nl`, or a single space if
/// `sp`.
pub open spec fn separator(sep: bool, nl: bool, sp: bool, indent: nat) -> Seq<char> {
    (if sep {
        ","@
    } else {
        Seq::empty()
    }) + (if nl {
        "\n"@ + spaces(indent)
    } else if sp {
        " "@
    } else {
        Seq::empty()
    })
}

/// A member key in quotes, followed by a colon and a space.
pub open spec fn quoted_key(key: Seq<char>) -> Seq<char> {
    "\""@ + key + "\": "@
}

/// `text` in double quotes.
pub open spec fn quoted(text: Seq<char>) -> Seq<char> {
    "\""@ + text + "\""@
}

impl Format {
    /// The text that opens an object or an array, named unless `name` is
    /// empty.
    pub open spec fn open_text(self, name: Seq<char>, array: bool) -> Seq<char> {
        match self {
            Format::Text => Seq::empty(),
            Format::Json { indent, nl, sep } => separator(
                sep,
                nl && indent > 0,
                !nl && indent > 0,
                indent as nat,
            ) + (if name.len() > 0 {
                quoted_key(name)
            } else {
                Seq::empty()
            }) + (if array {
                "["@
            } else {
                "{"@
            }),
        }
    }

    /// The state inside a freshly opened object or array.
    pub open spec fn opened(self, newline: bool) -> Format {
        match self {
            Format::Text => Format::Text,
            Format::Json { indent, nl, sep } => Format::Json {
                indent: (indent + 2) as usize,
                nl: newline,
                sep: false,
            },
        }
    }

    /// The text that closes the innermost object or array. The outermost
    /// one is followed by a line break.
    pub open spec fn close_text(self, array: bool) -> Seq<char> {
        match self {
            Format::Text => Seq::empty(),
            Format::Json { indent, nl, sep } => separator(false, nl, !nl, (indent - 2) as nat) + (
            if array {
                "]"@
            } else {
                "}"@
            }) + (if indent == 2 {
                "\n"@
            } else {
                Seq::empty()
            }),
        }
    }

    /// The state after the innermost object or array is closed.
    pub open spec fn closed(self) -> Format {
        match self {
            Format::Text => Format::Text,
            Format::Json { indent, nl, sep } => Format::Json {
                indent: (indent - 2) as usize,
                nl: true,
                sep,
            },
        }
    }

    /// The text of a member with a literal value.
    pub open spec fn member_text(self, key: Seq<char>, value: Seq<char>) -> Seq<char> {
        match self {
            Format::Text => Seq::empty(),
            Format::Json { indent, nl, sep } => separator(sep, nl, !nl, indent as nat)
                + quoted_key(key) + value,
        }
    }

    /// The state after a member: a separator is due.
    pub open spec fn after_member(self) -> Format {
        match self {
            Format::Text => Format::Text,
            Format::Json { indent, nl, sep } => Format::Json { indent, nl, sep: true },
        }
    }

    /// The state after an object with members has been written in this
    /// state: a separator is due, and the next member starts a new line.
    pub open spec fn after_object(self) -> Format {
        self.opened(false).after_member().closed()
    }

    /// The state after `n` objects with members have been written one after
    /// the other.
    pub open spec fn after_objects(self, n: nat) -> Format
        decreases n,
    {
        if n == 0 {
            self
        } else {
            self.after_objects((n - 1) as nat).after_object()
        }
    }

    /// Whether `levels` further levels can be opened without the depth
    /// overflowing.
    pub open spec fn room(self, levels: nat) -> bool {
        match self {
            Format::Text => true,
            Format::Json { indent, nl, sep } => indent + 2 * levels <= usize::MAX,
        }
    }

    /// Whether some object or array is open.
    pub open spec fn can_close(self) -> bool {
        match self {
            Format::Text => true,
            Format::Json { indent, nl, sep } => indent >= 2,
        }
    }

    /// Writing objects changes neither the depth nor the room left.
    pub proof fn lemma_after_objects(self, n: nat)
        requires
            self.room(1),
        ensures
            self.after_objects(n).room(1),
            self.can_close() ==> self.after_objects(n).can_close(),
            self is Text <==> self.after_objects(n) is Text,
            self.after_objects(n).closed() == if n == 0 {
                self.closed()
            } else {
                self.after_member().closed()
            },
        decreases n,
    {
        if n > 0 {
            self.lemma_after_objects((n - 1) as nat);
        }
    }

    /// The JSON form at the start of a document.
    pub fn json() -> (format: Format)
        ensures
            format == (Format::Json { indent: 0, nl: true, sep: false }),
    {
        Format::Json { indent: 0, nl: true, sep: false }
    }

    /// Opens an object, or an array if `array`, under `name` unless that is
    /// empty. `newline` says whether its members go on lines of their own.
    pub fn json_open(&mut self, name: &str, array: bool, newline: bool) -> (out: String)
        requires
            old(self).room(1),
        ensures
            out@ == old(self).open_text(name@, array),
            *final(self) == old(self).opened(newline),
    {
        let mut out = String::new();
        if let Format::Json { indent, nl, sep } = *self {
            out = self.json_sep(sep, nl && indent > 0, !nl && indent > 0, indent);
            let key = if name.is_empty() {
                String::new()
            } else {
                key_text(name)
            };
            out.append(key.as_str());
            out.append(if array {
                "["
            } else {
                "{"
            });
            *self = Format::Json { indent: indent + 2, nl: newline, sep: false };
        }
        out
    }

    /// Closes the innermost object, or array if `array`.
    pub fn json_close(&mut self, array: bool) -> (out: String)
        requires
            old(self).can_close(),
        ensures
            out@ == old(self).close_text(array),
            *final(self) == old(self).closed(),
    {
        let mut out = String::new();
        if let Format::Json { indent, nl, sep } = *self {
            out = self.json_sep(false, nl, !nl, indent - 2);
            out.append(if array {
                "]"
            } else {
                "}"
            });
            let end = if indent == 2 {
                String::from_str("\n")
            } else {
                String::new()
            };
            out.append(end.as_str());
            *self = Format::Json { indent: indent - 2, nl: true, sep };
        }
        out
    }

    /// Emits a member whose value is written as it stands.
    pub fn json_key_val(&mut self, key: &str, value: &str) -> (out: String)
        ensures
            out@ == old(self).member_text(key@, value@),
            *final(self) == old(self).after_member(),
    {
        let mut out = String::new();
        if let Format::Json { indent, nl, sep } = *self {
            out = self.json_sep(sep, nl, !nl, indent);
            out.append(key_text(key).as_str());
            out.append(value);
            *self = Format::Json { indent, nl, sep: true };
        }
        out
    }

    /// Emits a member whose value is a string, written in quotes.
    pub fn json_key_str(&mut self, key: &str, value: &str) -> (out: String)
        ensures
            out@ == old(self).member_text(key@, quoted(value@)),
            *final(self) == old(self).after_member(),
    {
        let mut text = String::from_str("\"");
        text.append(value);
        text.append("\"");
        self.json_key_val(key, text.as_str())
    }

    /// The separator before a member.
    pub fn json_sep(&self, sep: bool, nl: bool, sp: bool, indent: usize) -> (out: String)
        ensures
            out@ == separator(sep, nl, sp, indent as nat),
    {
        let mut out = if sep {
            String::from_str(",")
        } else {
            String::new()
        };
        let gap = if nl {
            let mut gap = String::from_str("\n");
            gap.append(indentation(indent).as_str());
            gap
        } else if sp {
            String::from_str(" ")
        } else {
            String::new()
        };
        out.append(gap.as_str());
        out
    }
}

/// A key in quotes with its colon.
fn key_text(key: &str) -> (out: String)
    ensures
        out@ == quoted_key(key@),
{
    let mut out = String::from_str("\"");
    out.append(key);
    out.append("\": ");
    out
}

/// `n` spaces.
fn indentation(n: usize) -> (out: String)
    ensures
        out@ == spaces(n as nat),
{
    let mut out = String::new();
    let mut i: usize = 0;
    while i < n
        invariant
            i <= n,
            out@ == spaces(i as nat),
        decreases n - i,
    {
        out.append(" ");
        i += 1;
    }
    out
}

} // verus!
