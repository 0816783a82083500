//! Paths.
use crate::text;
use vstd::prelude::*;
use vstd::string::*;

verus! {

/// A path seen from another one: put behind it, unless it starts at the root.
pub open spec fn path_join(base: Seq<char>, part: Seq<char>) -> Seq<char> {
    if part.len() > 0 && part[0] == '/' {
        part
    } else if base.len() == 0 || base.last() == '/' {
        base + part
    } else {
        base + seq!['/'] + part
    }
}

/// Puts a path behind a path, unless it starts at the root.
pub fn join(base: &str, part: &str) -> (path: String)
    ensures
        path@ == path_join(base@, part@),
{
    if part.unicode_len() > 0 && part.get_char(0) == '/' {
        return part.to_owned();
    }
    let length: usize = base.unicode_len();
    let mut path: String = base.to_owned();
    if length > 0 && base.get_char(length - 1) != '/' {
        proof {
            reveal_strlit("/");
            assert("/"@ =~= seq!['/']);
        }
        path.append("/");
    }
    path.append(part);
    path
}

/// A path without the slashes at its end.
pub open spec fn trimmed(path: Seq<char>) -> Seq<char>
    decreases path.len(),
{
    if path.len() > 0 && path.last() == '/' {
        trimmed(path.drop_last())
    } else {
        path
    }
}

/// A path up to the last slash in it.
pub open spec fn up_to_slash(path: Seq<char>) -> Seq<char>
    decreases path.len(),
{
    if path.len() > 0 && path.last() != '/' {
        up_to_slash(path.drop_last())
    } else {
        path
    }
}

/// The directory that something is in: the root is in itself, and a bare name is
/// in the directory without a name.
pub open spec fn parent_of(path: Seq<char>) -> Seq<char> {
    let above = up_to_slash(trimmed(path));
    if trimmed(path).len() == 0 {
        path
    } else if trimmed(above).len() == 0 {
        above
    } else {
        trimmed(above)
    }
}

fn trimmed_length(path: &str, from: usize) -> (length: usize)
    requires
        from <= path@.len(),
    ensures
        length <= from,
        path@.take(length as int) == trimmed(path@.take(from as int)),
{
    let mut length: usize = from;
    while length > 0 && path.get_char(length - 1) == '/'
        invariant
            length <= from <= path@.len(),
            trimmed(path@.take(from as int)) == trimmed(path@.take(length as int)),
        decreases length,
    {
        assert(path@.take(length as int).drop_last() =~= path@.take(length - 1));
        length = length - 1;
    }
    length
}

/// Finds the directory that something is in.
pub fn parent(path: &str) -> (parent: String)
    ensures
        parent@ == parent_of(path@),
{
    let whole: usize = path.unicode_len();
    assert(path@.take(whole as int) =~= path@);
    let end: usize = trimmed_length(path, whole);
    if end == 0 {
        return path.to_owned();
    }
    let mut slash: usize = end;
    while slash > 0 && path.get_char(slash - 1) != '/'
        invariant
            slash <= end <= path@.len(),
            up_to_slash(path@.take(end as int)) == up_to_slash(path@.take(slash as int)),
        decreases slash,
    {
        assert(path@.take(slash as int).drop_last() =~= path@.take(slash - 1));
        slash = slash - 1;
    }
    assert(up_to_slash(path@.take(slash as int)) == path@.take(slash as int));
    let above: usize = trimmed_length(path, slash);
    let length: usize = if above == 0 {
        slash
    } else {
        above
    };
    assert(path@.subrange(0, length as int) =~= path@.take(length as int));
    path.substring_char(0, length).to_owned()
}

/// The path of the configuration of a program, given where configurations are
/// and where the user is at home.
pub open spec fn config_path(
    explicit: Option<Seq<char>>,
    config_home: Option<Seq<char>>,
    home: Option<Seq<char>>,
) -> Option<Seq<char>> {
    if explicit is Some {
        explicit
    } else if config_home is Some {
        Some(path_join(path_join(config_home->0, "z3rm"@), "server.json"@))
    } else if home is Some {
        Some(
            path_join(
                path_join(path_join(home->0, ".config"@), "z3rm"@),
                "server.json"@,
            ),
        )
    } else {
        None
    }
}

/// Finds the file that the settings of the server are in.
pub fn resolve_settings_path(
    explicit: &Option<String>,
    config_home: &Option<String>,
    home: &Option<String>,
) -> (path: Option<String>)
    ensures
        text::optional(path) == config_path(
            text::optional(*explicit),
            text::optional(*config_home),
            text::optional(*home),
        ),
{
    match explicit {
        Some(path) => {
            return Some(path.clone());
        },
        None => {},
    }
    let config: String = match config_home {
        Some(dir) => dir.clone(),
        None => match home {
            Some(home) => join(home.as_str(), ".config"),
            None => {
                return None;
            },
        },
    };
    let dir: String = join(config.as_str(), "z3rm");
    Some(join(dir.as_str(), "server.json"))
}

/// The path of the socket, given one that was asked for and the directory for
/// such files.
pub open spec fn socket_path(explicit: Option<Seq<char>>, runtime_dir: Option<Seq<char>>) -> Seq<
    char,
> {
    if explicit is Some {
        explicit->0
    } else {
        path_join(
            path_join(
                if runtime_dir is Some {
                    runtime_dir->0
                } else {
                    "/tmp"@
                },
                "z3rm"@,
            ),
            "mux.sock"@,
        )
    }
}

fn runtime_directory(runtime_dir: &Option<String>) -> (dir: String)
    ensures
        dir@ == path_join(
            if text::optional(*runtime_dir) is Some {
                text::optional(*runtime_dir)->0
            } else {
                "/tmp"@
            },
            "z3rm"@,
        ),
{
    let base: String = match runtime_dir {
        Some(dir) => dir.clone(),
        None => "/tmp".to_owned(),
    };
    join(base.as_str(), "z3rm")
}

/// Finds the socket that clients and the server meet at.
pub fn default_socket_path(explicit: &Option<String>, runtime_dir: &Option<String>) -> (path:
    String)
    ensures
        path@ == socket_path(text::optional(*explicit), text::optional(*runtime_dir)),
{
    match explicit {
        Some(path) => path.clone(),
        None => join(runtime_directory(runtime_dir).as_str(), "mux.sock"),
    }
}

/// Finds the database.
pub fn database_path(explicit: &Option<String>, runtime_dir: &Option<String>) -> (path: String)
    ensures
        path@ == if text::optional(*explicit) is Some {
            text::optional(*explicit)->0
        } else {
            path_join(
                path_join(
                    if text::optional(*runtime_dir) is Some {
                        text::optional(*runtime_dir)->0
                    } else {
                        "/tmp"@
                    },
                    "z3rm"@,
                ),
                "mux.db"@,
            )
        },
{
    match explicit {
        Some(path) => path.clone(),
        None => join(runtime_directory(runtime_dir).as_str(), "mux.db"),
    }
}

/// Finds the directory of the log files, on a Mac and elsewhere.
pub fn get_log_dir(mac: bool, home: &Option<String>, data_local: &Option<String>) -> (path: String)
    ensures
        ({
            let base = if text::optional(*home) is Some {
                text::optional(*home)->0
            } else {
                "/tmp"@
            };
            path@ == if mac {
                path_join(path_join(base, "Library/Logs"@), "z3rm"@)
            } else {
                path_join(
                    path_join(
                        if text::optional(*data_local) is Some {
                            text::optional(*data_local)->0
                        } else {
                            base
                        },
                        "z3rm"@,
                    ),
                    "logs"@,
                )
            }
        }),
{
    let base: String = match home {
        Some(home) => home.clone(),
        None => "/tmp".to_owned(),
    };
    if mac {
        let logs: String = join(base.as_str(), "Library/Logs");
        return join(logs.as_str(), "z3rm");
    }
    let data: String = match data_local {
        Some(dir) => dir.clone(),
        None => base,
    };
    let own: String = join(data.as_str(), "z3rm");
    join(own.as_str(), "logs")
}

/// Finds the directory of the extensions of the user.
pub fn default_user_extensions_dir(config_dir: &Option<String>) -> (path: String)
    ensures
        path@ == path_join(
            path_join(
                if text::optional(*config_dir) is Some {
                    text::optional(*config_dir)->0
                } else {
                    "."@
                },
                "z3rm"@,
            ),
            "extensions"@,
        ),
{
    let config: String = match config_dir {
        Some(dir) => dir.clone(),
        None => ".".to_owned(),
    };
    let own: String = join(config.as_str(), "z3rm");
    join(own.as_str(), "extensions")
}

/// Finds the serial device to serve.
pub fn default_serial_device(explicit: &Option<String>) -> (path: String)
    ensures
        path@ == if text::optional(*explicit) is Some {
            text::optional(*explicit)->0
        } else {
            "/dev/ttyS0"@
        },
{
    match explicit {
        Some(path) => path.clone(),
        None => "/dev/ttyS0".to_owned(),
    }
}

/// The files beside a socket.
#[derive(Debug)]
pub struct SocketSidecars {
    pub pid: String,
    pub lock: String,
}

/// Finds the files beside a socket.
pub fn socket_sidecars(socket_path: &str) -> (sidecars: SocketSidecars)
    ensures
        sidecars.pid@ == socket_path@ + ".pid"@,
        sidecars.lock@ == socket_path@ + ".lock"@,
{
    SocketSidecars {
        pid: text::joined(socket_path, ".pid"),
        lock: text::joined(socket_path, ".lock"),
    }
}

/// A part is put behind a path with one slash between them, and one that starts
/// at the root stands alone.
pub proof fn law_parts_go_behind_a_slash(base: Seq<char>, part: Seq<char>)
    ensures
        part.len() > 0 && part[0] == '/' ==> path_join(base, part) == part,
        (part.len() == 0 || part[0] != '/') && base.len() > 0 && base.last() != '/' ==> path_join(
            base,
            part,
        ) == base.push('/') + part,
        (part.len() == 0 || part[0] != '/') && (base.len() == 0 || base.last() == '/')
            ==> path_join(base, part) == base + part,
{
    assert(base + seq!['/'] + part =~= base.push('/') + part);
}

proof fn lemma_no_slash_goes(base: Seq<char>, name: Seq<char>)
    requires
        base.len() == 0 || base.last() == '/',
        !name.contains('/'),
    ensures
        up_to_slash(base + name) == base,
    decreases name.len(),
{
    let all = base + name;
    if name.len() == 0 {
        assert(all =~= base);
    } else {
        assert(name.contains(name[name.len() - 1]));
        let init = name.drop_last();
        assert(!init.contains('/')) by {
            if init.contains('/') {
                let k = choose|k: int| 0 <= k < init.len() && init[k] == '/';
                assert(name[k] == '/');
            }
        }
        lemma_no_slash_goes(base, init);
        assert(all.drop_last() =~= base + init);
    }
}

/// What a name was put behind is its parent: whatever slashes follow the name,
/// and the root where the name stands below the root.
pub proof fn law_parents_are_what_names_are_put_behind(base: Seq<char>, name: Seq<char>)
    requires
        base.len() > 0,
        base.last() != '/' || base.len() == 1,
        name.len() > 0,
        !name.contains('/'),
    ensures
        parent_of(path_join(base, name)) == base,
        parent_of(path_join(base, name).push('/')) == base,
{
    assert(name.contains(name[0]) && name.contains(name[name.len() - 1]));
    let path = path_join(base, name);
    let up = if base.last() == '/' {
        base
    } else {
        base + seq!['/']
    };
    assert(path =~= up + name);
    assert(path.last() == name.last());
    assert(path.push('/').drop_last() =~= path);
    assert(trimmed(path) == path);
    assert(trimmed(path.push('/')) == path);
    lemma_no_slash_goes(up, name);
    reveal_with_fuel(trimmed, 3);
    if base.last() != '/' {
        assert(up.drop_last() =~= base);
        assert(trimmed(up) == base);
    } else {
        assert(up.drop_last().len() == 0);
    }
}

/// The settings are those of the file that is named, else those below the
/// directory of the user's settings, else those below the home directory.
pub proof fn law_settings_stand_in_their_directory(
    named: Seq<char>,
    dir: Seq<char>,
    home: Seq<char>,
    config_home: Option<Seq<char>>,
    any_home: Option<Seq<char>>,
)
    requires
        dir.len() > 0,
        dir.last() != '/',
        home.len() > 0,
        home.last() != '/',
    ensures
        config_path(Some(named), config_home, any_home) == Some(named),
        config_path(None, Some(dir), any_home) == Some(dir + "/z3rm/server.json"@),
        config_path(None, None, Some(home)) == Some(home + "/.config/z3rm/server.json"@),
        config_path(None, None, None) is None,
{
    reveal_strlit("z3rm");
    reveal_strlit("server.json");
    reveal_strlit(".config");
    reveal_strlit("/z3rm/server.json");
    reveal_strlit("/.config/z3rm/server.json");
    assert(config_path(None, Some(dir), any_home)->0 =~= dir + "/z3rm/server.json"@);
    assert(config_path(None, None, Some(home))->0 =~= home + "/.config/z3rm/server.json"@);
}

/// The socket is the one that is named, else it stands below the directory for
/// running programs, else below that for files that do not last.
pub proof fn law_sockets_stand_in_their_directory(
    named: Seq<char>,
    dir: Seq<char>,
    runtime_dir: Option<Seq<char>>,
)
    requires
        dir.len() > 0,
        dir.last() != '/',
    ensures
        socket_path(Some(named), runtime_dir) == named,
        socket_path(None, Some(dir)) == dir + "/z3rm/mux.sock"@,
        socket_path(None, None) == "/tmp/z3rm/mux.sock"@,
{
    reveal_strlit("z3rm");
    reveal_strlit("mux.sock");
    reveal_strlit("/tmp");
    reveal_strlit("/z3rm/mux.sock");
    reveal_strlit("/tmp/z3rm/mux.sock");
    assert(socket_path(None, Some(dir)) =~= dir + "/z3rm/mux.sock"@);
    assert(socket_path(None, None) =~= "/tmp/z3rm/mux.sock"@);
}

} // verus!
