//! Command dispatcher: tokenizes one line on whitespace and maps the first
//! word to a file-system operation on the root directory, producing a
//! response or error line.

use crate::file_system::{
    add_dir_op, add_file_op, content_of, entries_of, first_match, has_match, listing_of,
    msg_dir_exists, msg_dir_not_empty, msg_dir_not_found, msg_file_not_found, msg_node_exists,
    msg_node_not_found,
    msg_not_a_directory, msg_path_not_a_directory, named_any, named_dir, named_file, remove_op,
    rename_op, resolve, with_entries, Entry, FileSystem, Resolved,
};
use crate::text::{
    concat3, concat5, path_segments, slash_sep, split_pred, split_words, str_eq, words_of,
};
use vstd::prelude::*;

verus! {

/// A name in the listing response, wrapped in double quotes.
pub open spec fn quoted(name: Seq<char>) -> Seq<char> {
    seq!['"'] + name + seq!['"']
}

/// The quoted names joined with `", "`.
pub open spec fn quoted_join(names: Seq<Seq<char>>) -> Seq<char>
    decreases names.len(),
{
    if names.len() == 0 {
        seq![]
    } else if names.len() == 1 {
        quoted(names[0])
    } else {
        quoted(names[0]) + ", "@ + quoted_join(names.subrange(1, names.len() as int))
    }
}

proof fn lemma_quoted_join_push(s: Seq<Seq<char>>, x: Seq<char>)
    ensures
        quoted_join(s.push(x)) == if s.len() == 0 {
            quoted(x)
        } else {
            quoted_join(s) + ", "@ + quoted(x)
        },
    decreases s.len(),
{
    let t = s.push(x);
    if s.len() == 0 {
        assert(t.len() == 1);
        assert(t[0] == x);
    } else {
        let tail = s.subrange(1, s.len() as int);
        assert(t.subrange(1, t.len() as int) =~= tail.push(x));
        lemma_quoted_join_push(tail, x);
        assert(t[0] == s[0]);
        if s.len() == 1 {
            assert(tail.len() == 0);
            assert(quoted_join(t) == quoted(s[0]) + ", "@ + quoted(x));
        } else {
            assert(quoted(s[0]) + ", "@ + (quoted_join(tail) + ", "@ + quoted(x)) =~= (quoted(s[0])
                + ", "@ + quoted_join(tail)) + ", "@ + quoted(x));
        }
    }
}

/// What one command line does to the root directory, and the response line:
/// the full behaviour of the shell surface. `mkdir`, `touch`, `cat`, `rm` and
/// `rename` address children of the root only; `ls` takes a path. A `touch`
/// collision with an existing file is swallowed: the store is unchanged but
/// the response still reports the file as created.
pub open spec fn shell_response(root: Entry, line: Seq<char>) -> (Entry, Result<
    Seq<char>,
    Seq<char>,
>) {
    let ws = words_of(line);
    if ws.len() == 0 {
        (root, Err("No command entered"@))
    } else if ws[0] == "mkdir"@ {
        if ws.len() < 2 {
            (root, Err("Usage: mkdir <path>"@))
        } else if has_match(entries_of(root), named_dir(ws[1])) {
            (root, Err(msg_dir_exists(ws[1])))
        } else {
            (
                with_entries(root, seq![], add_dir_op(ws[1])),
                Ok("Directory '"@ + ws[1] + "' created"@),
            )
        }
    } else if ws[0] == "touch"@ {
        if ws.len() < 2 {
            (root, Err("Usage: touch <path>"@))
        } else {
            let content = if ws.len() > 2 {
                ws[2]
            } else {
                Seq::empty()
            };
            let root2 = if has_match(entries_of(root), named_file(ws[1])) {
                root
            } else {
                with_entries(root, seq![], add_file_op(ws[1], content))
            };
            (root2, Ok("File '"@ + ws[1] + "' created"@))
        }
    } else if ws[0] == "ls"@ {
        if ws.len() < 2 {
            (root, Err("Usage: ls <path>"@))
        } else {
            match resolve(root, path_segments(ws[1])) {
                Resolved::Found(d) => {
                    if d is Dir {
                        (
                            root,
                            Ok(
                                "Contents of '"@ + ws[1] + "': ["@ + quoted_join(
                                    listing_of(entries_of(d)),
                                ) + "]"@,
                            ),
                        )
                    } else {
                        (root, Err(msg_path_not_a_directory(ws[1])))
                    }
                },
                Resolved::NotFound => (root, Err(msg_dir_not_found(ws[1]))),
                Resolved::NotDir(_) => (root, Err(msg_not_a_directory(ws[1]))),
            }
        }
    } else if ws[0] == "cat"@ {
        if ws.len() < 2 {
            (root, Err("Usage: cat <path>"@))
        } else {
            let es = entries_of(root);
            let i = first_match(es, named_file(ws[1]));
            if i < es.len() {
                (root, Ok(content_of(es[i])))
            } else {
                (root, Err(msg_file_not_found(ws[1], "/"@)))
            }
        }
    } else if ws[0] == "rm"@ {
        if ws.len() < 2 {
            (root, Err("Usage: rm <path>"@))
        } else {
            let es = entries_of(root);
            let i = first_match(es, named_any(ws[1]));
            if i == es.len() {
                (root, Err(msg_node_not_found(ws[1], "/"@)))
            } else if es[i] is Dir && entries_of(es[i]).len() > 0 {
                (root, Err(msg_dir_not_empty(ws[1])))
            } else {
                (
                    with_entries(root, seq![], remove_op(ws[1])),
                    Ok("Node '"@ + ws[1] + "' deleted"@),
                )
            }
        }
    } else if ws[0] == "rename"@ {
        if ws.len() < 3 {
            (root, Err("Usage: rename <path> <new_name>"@))
        } else {
            let es = entries_of(root);
            if has_match(es, named_any(ws[2])) {
                (root, Err(msg_node_exists(ws[2])))
            } else {
                let root2 = if first_match(es, named_any(ws[1])) == es.len() {
                    root
                } else {
                    with_entries(root, seq![], rename_op(ws[1], ws[2]))
                };
                (root2, Ok("Node '"@ + ws[1] + "' renamed to '"@ + ws[2] + "'"@))
            }
        }
    } else {
        (root, Err("Unknown command: "@ + ws[0]))
    }
}

/// Executes one command line against the file store and returns the response
/// line, exactly as `shell_response` describes.
pub fn parse_and_execute_command(command: &str, fs: &mut FileSystem) -> (r: Result<String, String>)
    requires
        old(fs).wf(),
    ensures
        final(fs).wf(),
        ({
            let (root2, res) = shell_response(old(fs)@, command@);
            &&& final(fs)@ == root2
            &&& match r {
                Ok(s) => res matches Ok(v) && s@ == v,
                Err(s) => res matches Err(v) && s@ == v,
            }
        }),
{
    proof {
        reveal_strlit("/");
        assert("/"@ =~= seq!['/']);
        assert("/"@.subrange(1, 1) =~= Seq::<char>::empty());
        assert(slash_sep()("/"@[0]));
        assert(split_pred(Seq::<char>::empty(), slash_sep(), seq![]) =~= Seq::<Seq<char>>::empty());
        assert(path_segments("/"@) =~= Seq::<Seq<char>>::empty());
        reveal_strlit("");
        assert(""@ =~= Seq::<char>::empty());
    }
    let parts = split_words(command);
    let ghost ws = words_of(command@);
    if parts.len() == 0 {
        return Err("No command entered".to_owned());
    }
    let cmd: &str = parts[0].as_str();
    if str_eq(cmd, "mkdir") {
        if parts.len() < 2 {
            return Err("Usage: mkdir <path>".to_owned());
        }
        match fs.create_directory("/", parts[1].as_str()) {
            Ok(_) => Ok(concat3("Directory '", parts[1].as_str(), "' created")),
            Err(e) => Err(e),
        }
    } else if str_eq(cmd, "touch") {
        if parts.len() < 2 {
            return Err("Usage: touch <path>".to_owned());
        }
        let content: &str = if parts.len() > 2 {
            parts[2].as_str()
        } else {
            ""
        };
        let _outcome = fs.create_file("/", parts[1].as_str(), content);
        Ok(concat3("File '", parts[1].as_str(), "' created"))
    } else if str_eq(cmd, "ls") {
        if parts.len() < 2 {
            return Err("Usage: ls <path>".to_owned());
        }
        match fs.list_directory(parts[1].as_str()) {
            Ok(names) => {
                let ghost nv = names.deep_view();
                let mut out = "Contents of '".to_owned();
                out.append(parts[1].as_str());
                out.append("': [");
                let ghost head = "Contents of '"@ + ws[1] + "': ["@;
                proof {
                    assert(out@ =~= head + quoted_join(nv.subrange(0, 0)));
                }
                let mut j: usize = 0;
                while j < names.len()
                    invariant
                        j <= names@.len(),
                        nv == names.deep_view(),
                        ws.len() >= 2,
                        head == "Contents of '"@ + ws[1] + "': ["@,
                        out@ == head + quoted_join(nv.subrange(0, j as int)),
                    decreases names@.len() - j,
                {
                    if j > 0 {
                        out.append(", ");
                    }
                    out.append("\"");
                    out.append(names[j].as_str());
                    out.append("\"");
                    proof {
                        reveal_strlit("\"");
                        reveal_strlit(", ");
                        let pre = nv.subrange(0, j as int);
                        lemma_quoted_join_push(pre, nv[j as int]);
                        assert(pre.push(nv[j as int]) =~= nv.subrange(0, j + 1));
                        assert(quoted(nv[j as int]) =~= "\""@ + names@[j as int]@ + "\""@);
                        if j > 0 {
                            assert(out@ =~= head + (quoted_join(pre) + ", "@ + quoted(
                                nv[j as int],
                            )));
                        } else {
                            assert(pre.len() == 0);
                            assert(out@ =~= head + quoted(nv[j as int]));
                        }
                    }
                    j += 1;
                }
                out.append("]");
                proof {
                    assert(nv.subrange(0, nv.len() as int) =~= nv);
                    assert(out@ =~= head + quoted_join(nv) + "]"@);
                }
                Ok(out)
            },
            Err(e) => Err(e),
        }
    } else if str_eq(cmd, "cat") {
        if parts.len() < 2 {
            return Err("Usage: cat <path>".to_owned());
        }
        match fs.read_file("/", parts[1].as_str()) {
            Ok(content) => Ok(content.to_owned()),
            Err(e) => Err(e),
        }
    } else if str_eq(cmd, "rm") {
        if parts.len() < 2 {
            return Err("Usage: rm <path>".to_owned());
        }
        match fs.delete_node("/", parts[1].as_str()) {
            Ok(_) => Ok(concat3("Node '", parts[1].as_str(), "' deleted")),
            Err(e) => Err(e),
        }
    } else if str_eq(cmd, "rename") {
        if parts.len() < 3 {
            return Err("Usage: rename <path> <new_name>".to_owned());
        }
        match fs.rename_node("/", parts[1].as_str(), parts[2].as_str()) {
            Ok(_) => Ok(
                concat5("Node '", parts[1].as_str(), "' renamed to '", parts[2].as_str(), "'"),
            ),
            Err(e) => Err(e),
        }
    } else {
        let mut msg = "Unknown command: ".to_owned();
        msg.append(cmd);
        Err(msg)
    }
}

} // verus!
