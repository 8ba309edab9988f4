//! A server of one file: a buffer, messages, commands and a store.
