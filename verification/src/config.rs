use vstd::prelude::*;

verus! {

/// Runtime configuration for a quadtree server: the listening port, the
/// corners of the tree's overall bounding rectangle, and the leaf
/// capacity. Loading the values from a configuration file is the caller's
/// business; this type only fixes the defaults and how missing values
/// fall back to them.
#[derive(Clone, Copy, Debug)]
pub struct Config {
    pub port: i64,
    pub top_left_x: i64,
    pub top_left_y: i64,
    pub bottom_right_x: i64,
    pub bottom_right_y: i64,
    pub capacity: i64,
}

/// A configuration file could not be read or parsed.
#[derive(Clone, Debug)]
pub struct ConfigParsingError {
    pub details: String,
}

impl ConfigParsingError {
    /// Keeps a description of what could not be parsed.
    pub fn new(details: &str) -> (e: ConfigParsingError)
        ensures
            e.details@ == details@,
    {
        ConfigParsingError { details: details.to_owned() }
    }
}

impl Config {
    /// The defaults when configuration is absent or unparsable: port
    /// 50051, a bounding rectangle from the origin to (10, 10), and
    /// capacity 10.
    pub fn default() -> (c: Config)
        ensures
            c == (Config {
                port: 50051,
                top_left_x: 0,
                top_left_y: 0,
                bottom_right_x: 10,
                bottom_right_y: 10,
                capacity: 10,
            }),
    {
        Config {
            port: 50051,
            top_left_x: 0,
            top_left_y: 0,
            bottom_right_x: 10,
            bottom_right_y: 10,
            capacity: 10,
        }
    }

    /// Combines what a configuration source provided with the defaults:
    /// every value the source lacked falls back to the corresponding
    /// default, each independently of the others.
    pub fn resolve(
        port: Option<i64>,
        top_left_x: Option<i64>,
        top_left_y: Option<i64>,
        bottom_right_x: Option<i64>,
        bottom_right_y: Option<i64>,
        capacity: Option<i64>,
    ) -> (c: Config)
        ensures
            c.port == if port is Some { port->0 } else { 50051i64 },
            c.top_left_x == if top_left_x is Some { top_left_x->0 } else { 0i64 },
            c.top_left_y == if top_left_y is Some { top_left_y->0 } else { 0i64 },
            c.bottom_right_x == if bottom_right_x is Some { bottom_right_x->0 } else { 10i64 },
            c.bottom_right_y == if bottom_right_y is Some { bottom_right_y->0 } else { 10i64 },
            c.capacity == if capacity is Some { capacity->0 } else { 10i64 },
    {
        let defaults = Config::default();
        Config {
            port: match port {
                Some(p) => p,
                None => defaults.port,
            },
            top_left_x: match top_left_x {
                Some(v) => v,
                None => defaults.top_left_x,
            },
            top_left_y: match top_left_y {
                Some(v) => v,
                None => defaults.top_left_y,
            },
            bottom_right_x: match bottom_right_x {
                Some(v) => v,
                None => defaults.bottom_right_x,
            },
            bottom_right_y: match bottom_right_y {
                Some(v) => v,
                None => defaults.bottom_right_y,
            },
            capacity: match capacity {
                Some(v) => v,
                None => defaults.capacity,
            },
        }
    }
}

} // verus!
