# pico_th_collector

Host side of a temperature and humidity collector: a Raspberry Pi Pico reads
a DHT11 sensor at an interval and keeps the readings; this tool fetches them
over a serial line and appends them to a CSV file.

- `src/` is the verified library (Verus):
  - `text.rs`: base-ten rendering and parsing of unsigned integers, and the
    splitting of text on a separator;
  - `csv.rs`: the CSV rendering of readings, the `dd-hh-mm-ss` time format,
    reading back the last time of a CSV file, and the laws that tie them;
  - `pc_code.rs`: the rendering of the first version of the tool;
  - `pico_interface.rs`: the reading layout and the decisions of the serial
    exchange (requests, chunks of readings, sync bytes);
  - `commands.rs`: the arguments of the `get` and `delay` commands.
- `app/` is the command-line program: serial port, files and printing.
- `tests/` runs the library on concrete values.
