use vstd::prelude::*;
use vstd::string::StringExecFns;

use crate::carton::stream::string_push;

verus! {

#[derive(Clone, Copy, Debug, PartialEq, Eq, Structural)]
pub enum LogLevel {
    Blacklist,
    Error,
    Info,
}

/// The character that marks a log level in a log line.
pub open spec fn level_char(level: LogLevel) -> char {
    match level {
        LogLevel::Blacklist => '@',
        LogLevel::Error => '!',
        LogLevel::Info => '.',
    }
}

/// Two spaces for each level of indentation.
pub open spec fn indentation(indent: nat) -> Seq<char>
    decreases indent,
{
    if indent == 0 {
        Seq::empty()
    } else {
        indentation((indent - 1) as nat) + seq![' ', ' ']
    }
}

/// A log line: the indentation, the level's character, a space, then the message.
pub open spec fn log_line(level: LogLevel, message: Seq<char>, indent: nat) -> Seq<char> {
    indentation(indent) + seq![level_char(level), ' '] + message
}

/// Keeps every message written to the log.
#[derive(Debug)]
pub struct Log {
    messages: Vec<String>,
}

impl View for Log {
    type V = Seq<Seq<char>>;

    closed spec fn view(&self) -> Seq<Seq<char>> {
        self.messages@.map_values(|message: String| message@)
    }
}

impl Default for Log {
    fn default() -> (log: Self)
        ensures
            log@ == Seq::<Seq<char>>::empty(),
    {
        let log = Log { messages: Vec::new() };
        proof {
            assert(log@ =~= Seq::<Seq<char>>::empty());
        }
        log
    }
}

impl Log {
    /// Formats a message into a log line, keeps it, and hands it out to be printed.
    pub fn record(&mut self, log_level: LogLevel, message: String, indent: u8) -> (line: String)
        ensures
            line@ == log_line(log_level, message@, indent as nat),
            final(self)@ == old(self)@.push(line@),
    {
        let log_level_char = match log_level {
            LogLevel::Blacklist => '@',
            LogLevel::Error => '!',
            LogLevel::Info => '.',
        };

        let mut line = String::new();
        for i in 0..indent
            invariant
                line@ == indentation(i as nat),
        {
            string_push(&mut line, ' ');
            string_push(&mut line, ' ');
            proof {
                assert(line@ =~= indentation((i + 1) as nat));
            }
        }
        string_push(&mut line, log_level_char);
        string_push(&mut line, ' ');
        line.append(message.as_str());
        proof {
            assert(line@ =~= log_line(log_level, message@, indent as nat));
        }
        let kept = line.clone();
        self.messages.push(kept);
        proof {
            assert(self@ =~= old(self)@.push(line@));
        }
        line
    }
}

} // verus!
