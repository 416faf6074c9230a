//! Socket, database, and config locations derived from the XDG environment,
//! with documented fallbacks.
//!
//! The caller reads the environment (the XDG base directories, the home
//! directory, the user id) and hands the values in as plain strings.

use vstd::prelude::*;

verus! {

use crate::text::{dec_u64, push_dec_u64, str_chars, string_from_chars};

/// The directory holding the socket: `$XDG_RUNTIME_DIR/wayclip`, or
/// `/tmp/wayclip-<uid>` when the runtime directory is unavailable.
pub open spec fn spec_socket_dir(runtime_dir: Option<Seq<char>>, uid: u64) -> Seq<char> {
    match runtime_dir {
        Some(d) => d + "/wayclip"@,
        None => "/tmp/wayclip-"@ + dec_u64(uid as nat),
    }
}

/// The socket path: the socket directory plus `wayclip.sock`.
pub open spec fn spec_socket_path(runtime_dir: Option<Seq<char>>, uid: u64) -> Seq<char> {
    spec_socket_dir(runtime_dir, uid) + "/wayclip.sock"@
}

/// The directory holding the database: `$XDG_DATA_HOME/wayclip`, with
/// `$HOME/.local/share/wayclip` and `/tmp/wayclip` as fallbacks.
pub open spec fn spec_database_dir(data_dir: Option<Seq<char>>, home_dir: Option<Seq<char>>) -> Seq<
    char,
> {
    (match data_dir {
        Some(d) => d,
        None => match home_dir {
            Some(h) => h + "/.local/share"@,
            None => "/tmp"@,
        },
    }) + "/wayclip"@
}

/// The database path: the database directory plus `history.db`.
pub open spec fn spec_database_path(
    data_dir: Option<Seq<char>>,
    home_dir: Option<Seq<char>>,
) -> Seq<char> {
    spec_database_dir(data_dir, home_dir) + "/history.db"@
}

/// The directory holding the config file: `$XDG_CONFIG_HOME/wayclip`, with
/// `$HOME/.config/wayclip` and `/tmp/wayclip` as fallbacks.
pub open spec fn spec_config_dir(
    config_home: Option<Seq<char>>,
    home_dir: Option<Seq<char>>,
) -> Seq<char> {
    (match config_home {
        Some(d) => d,
        None => match home_dir {
            Some(h) => h + "/.config"@,
            None => "/tmp"@,
        },
    }) + "/wayclip"@
}

/// The config file path: the config directory plus `config.toml`.
pub open spec fn spec_config_path(
    config_home: Option<Seq<char>>,
    home_dir: Option<Seq<char>>,
) -> Seq<char> {
    spec_config_dir(config_home, home_dir) + "/config.toml"@
}

/// The characters of the socket directory.
fn socket_dir_chars(runtime_dir: Option<&str>, uid: u64) -> (v: Vec<char>)
    ensures
        v@ == spec_socket_dir(
            match runtime_dir {
                Some(d) => Some(d@),
                None => None,
            },
            uid,
        ),
{
    match runtime_dir {
        Some(d) => {
            let mut v = str_chars(d);
            crate::codec::push_lit(&mut v, "/wayclip");
            v
        },
        None => {
            let mut v = str_chars("/tmp/wayclip-");
            push_dec_u64(&mut v, uid);
            v
        },
    }
}

/// The socket path for IPC, from the runtime directory when it is available,
/// else under `/tmp` with the user id.
pub fn socket_path(runtime_dir: Option<&str>, uid: u64) -> (r: String)
    ensures
        r@ == spec_socket_path(
            match runtime_dir {
                Some(d) => Some(d@),
                None => None,
            },
            uid,
        ),
{
    let mut v = socket_dir_chars(runtime_dir, uid);
    crate::codec::push_lit(&mut v, "/wayclip.sock");
    string_from_chars(&v)
}

/// The directory containing the socket.
pub fn socket_dir(runtime_dir: Option<&str>, uid: u64) -> (r: String)
    ensures
        r@ == spec_socket_dir(
            match runtime_dir {
                Some(d) => Some(d@),
                None => None,
            },
            uid,
        ),
{
    let v = socket_dir_chars(runtime_dir, uid);
    string_from_chars(&v)
}

/// The characters of the database directory.
fn database_dir_chars(data_dir: Option<&str>, home_dir: Option<&str>) -> (v: Vec<char>)
    ensures
        v@ == spec_database_dir(
            match data_dir {
                Some(d) => Some(d@),
                None => None,
            },
            match home_dir {
                Some(h) => Some(h@),
                None => None,
            },
        ),
{
    let mut v = match data_dir {
        Some(d) => str_chars(d),
        None => match home_dir {
            Some(h) => {
                let mut v = str_chars(h);
                crate::codec::push_lit(&mut v, "/.local/share");
                v
            },
            None => str_chars("/tmp"),
        },
    };
    crate::codec::push_lit(&mut v, "/wayclip");
    v
}

/// The database path, from the XDG data directory with its fallbacks.
pub fn database_path(data_dir: Option<&str>, home_dir: Option<&str>) -> (r: String)
    ensures
        r@ == spec_database_path(
            match data_dir {
                Some(d) => Some(d@),
                None => None,
            },
            match home_dir {
                Some(h) => Some(h@),
                None => None,
            },
        ),
{
    let mut v = database_dir_chars(data_dir, home_dir);
    crate::codec::push_lit(&mut v, "/history.db");
    string_from_chars(&v)
}

/// The directory containing the database.
pub fn database_dir(data_dir: Option<&str>, home_dir: Option<&str>) -> (r: String)
    ensures
        r@ == spec_database_dir(
            match data_dir {
                Some(d) => Some(d@),
                None => None,
            },
            match home_dir {
                Some(h) => Some(h@),
                None => None,
            },
        ),
{
    let v = database_dir_chars(data_dir, home_dir);
    string_from_chars(&v)
}

/// The characters of the config directory.
fn config_dir_chars(config_home: Option<&str>, home_dir: Option<&str>) -> (v: Vec<char>)
    ensures
        v@ == spec_config_dir(
            match config_home {
                Some(d) => Some(d@),
                None => None,
            },
            match home_dir {
                Some(h) => Some(h@),
                None => None,
            },
        ),
{
    let mut v = match config_home {
        Some(d) => str_chars(d),
        None => match home_dir {
            Some(h) => {
                let mut v = str_chars(h);
                crate::codec::push_lit(&mut v, "/.config");
                v
            },
            None => str_chars("/tmp"),
        },
    };
    crate::codec::push_lit(&mut v, "/wayclip");
    v
}

/// The config file path, from the XDG config directory with its fallbacks.
pub fn config_path(config_home: Option<&str>, home_dir: Option<&str>) -> (r: String)
    ensures
        r@ == spec_config_path(
            match config_home {
                Some(d) => Some(d@),
                None => None,
            },
            match home_dir {
                Some(h) => Some(h@),
                None => None,
            },
        ),
{
    let mut v = config_dir_chars(config_home, home_dir);
    crate::codec::push_lit(&mut v, "/config.toml");
    string_from_chars(&v)
}

/// The directory containing the config file.
pub fn config_dir(config_home: Option<&str>, home_dir: Option<&str>) -> (r: String)
    ensures
        r@ == spec_config_dir(
            match config_home {
                Some(d) => Some(d@),
                None => None,
            },
            match home_dir {
                Some(h) => Some(h@),
                None => None,
            },
        ),
{
    let v = config_dir_chars(config_home, home_dir);
    string_from_chars(&v)
}

} // verus!
