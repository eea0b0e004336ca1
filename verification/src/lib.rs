//! NeuralFS: a learned file finder and a copy-on-write, content-addressed
//! filesystem.
//!
//! The library holds what the daemon, the client and the mounts decide and
//! compute, as functions from plain values to plain values. Reading and writing
//! disks, sockets and clocks, and floating-point numbers, are left to the
//! programs around it: they hand in bytes, times and scores (as the bit patterns
//! of doubles), and are told what to read, to write and to answer.
//!
//! - The volume: [`blockstore`] keeps content-addressed blocks in an append-only
//!   log, [`cache`] a strictly bounded part of them in RAM, [`inode`] and [`tree`]
//!   describe the copy-on-write tree, and [`fs`] puts them together. [`fslaws`],
//!   [`history`], [`volumelaws`] and [`cachelaws`] state what holds of them and
//!   over several operations.
//! - The finder: [`store`] is the index of files, which [`indexer`] and
//!   [`watcher`] keep up to date, [`classifier`] prepares training and guesses,
//!   [`search`] and [`rank`] find and order files, [`pathcache`] remembers
//!   answers. [`searchlaws`] and [`trainlaws`] say what is found, in which order,
//!   and what the model is trained on.
//! - The daemon and its client: [`protocol`], [`state`], [`ipc`], [`cli`],
//!   [`config`], [`args`], [`logging`]; [`period`] shows that the generator does
//!   not repeat itself in a benchmark, and [`daemonlaws`] states what each request
//!   changes and is answered.
//! - The mounts: [`mountfs`] is the passthrough mount with its hot files in RAM,
//!   [`winfsphost`] the in-memory drive; [`mountlaws`] and [`drivelaws`] state
//!   what reading, writing, resizing and renaming do there.
//! - Collections and encodings: [`order`], [`rope`], [`sorted`], [`linked`],
//!   [`codec`], [`text`] and its [`textlaws`], [`paths`].

pub mod args;
pub mod blockstore;
pub mod cache;
pub mod cachelaws;
pub mod classifier;
pub mod cli;
pub mod codec;
pub mod config;
pub mod daemonlaws;
pub mod drivelaws;
pub mod fs;
pub mod fslaws;
pub mod history;
pub mod indexer;
pub mod inode;
pub mod ipc;
pub mod linked;
pub mod logging;
pub mod mountfs;
pub mod mountlaws;
pub mod order;
pub mod pathcache;
pub mod paths;
pub mod period;
pub mod protocol;
pub mod rank;
pub mod rope;
pub mod search;
pub mod searchlaws;
pub mod sorted;
pub mod state;
pub mod store;
pub mod text;
pub mod textlaws;
pub mod trainlaws;
pub mod tree;
pub mod volumelaws;
pub mod watcher;
pub mod winfsphost;
